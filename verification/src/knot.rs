//! The ownership transitions of spawning a child: the setup owns every pty
//! and pipe descriptor before the fork, and the fork divides them between
//! the parent and the child.
//!
//! Descriptors are plain numbers here. Each function says which of them the
//! caller must close, which it must install with `dup2`, and which it keeps.

use vstd::prelude::*;
use vstd::multiset::Multiset;
use vstd::seq_lib::lemma_multiset_commutative;

use crate::child::{lemma_failure_persists, lemma_run_steps_append, run_steps, step_table, ChildRun, ChildStep};
use crate::fd::{lemma_release_all, release_all, FdTable, StdFd};
use crate::sys::SysError;

verus! {

/// Parent information about the child process.
pub struct PtyKnot {
    /// Child process ID, if it has not already been reaped.
    pub pid: Option<i32>,
}

impl PtyKnot {
    /// Takes the process ID that is still to be reaped, leaving none
    /// behind: the child is waited for at most once.
    pub fn take_pid(&mut self) -> (pid: Option<i32>)
        ensures
            pid == old(self).pid,
            final(self).pid.is_none(),
    {
        let pid = self.pid;
        self.pid = None;
        pid
    }
}

/// Which direction a pipe runs.
#[derive(Copy, Clone, Debug, PartialEq, Eq, Structural)]
pub enum PipeDirection {
    /// Master reads from pipe, slave writes.
    MasterRead,
    /// Master writes to pipe, slave reads.
    MasterWrite,
}

/// The (master, slave) ends of a pipe whose read end is `read` and write
/// end is `write`: the master reads for `MasterRead` and writes for
/// `MasterWrite`; the slave holds the other end.
pub open spec fn pipe_ends(direction: PipeDirection, read: i32, write: i32) -> (i32, i32) {
    match direction {
        PipeDirection::MasterRead => (read, write),
        PipeDirection::MasterWrite => (write, read),
    }
}

/// The parent reads what the child writes exactly for `MasterRead`: then
/// the parent keeps the read end and the child gets the write end; for
/// `MasterWrite` the parent keeps the write end and the child gets the read
/// end. The two ends always go to different sides.
pub proof fn lemma_pipe_ends(direction: PipeDirection, read: i32, write: i32)
    ensures
        direction == PipeDirection::MasterRead ==> pipe_ends(direction, read, write).0 == read
            && pipe_ends(direction, read, write).1 == write,
        direction == PipeDirection::MasterWrite ==> pipe_ends(direction, read, write).0 == write
            && pipe_ends(direction, read, write).1 == read,
{
}

/// Information needed during the pipe plumbing process: both ends of a
/// pipe, owned until the fork divides them, and the standard descriptor
/// that the child attaches to the slave end.
pub struct Plumbing {
    master: i32,
    slave: i32,
    slave_target: StdFd,
}

impl Plumbing {
    /// The end of the pipe that the parent keeps.
    pub closed spec fn master_fd(self) -> i32 {
        self.master
    }

    /// The end of the pipe that the child attaches to its target.
    pub closed spec fn slave_fd(self) -> i32 {
        self.slave
    }

    /// The standard descriptor the child attaches the slave end to.
    pub closed spec fn target_fd(self) -> i32 {
        self.slave_target@
    }

    /// Create a new pipe running in the specified direction, and remember
    /// the file descriptor of the given file. This will later allow the
    /// slave to attach `slave_target` to the other end of the pipe.
    /// `pipe_fds` is the result of `pipe(2)`: the read end, then the write
    /// end.
    pub fn new(
        direction: PipeDirection,
        pipe_fds: Result<[i32; 2], SysError>,
        slave_target: StdFd,
    ) -> (r: Result<Plumbing, SysError>)
        ensures
            pipe_fds is Err ==> r == Err::<Plumbing, SysError>(pipe_fds->Err_0),
            pipe_fds matches Ok(fds) ==> r matches Ok(p) && (p.master_fd(), p.slave_fd())
                == pipe_ends(direction, fds[0], fds[1]) && p.target_fd() == slave_target@,
            pipe_fds matches Ok(fds) ==> (direction == PipeDirection::MasterRead ==> (r matches Ok(
                p,
            ) && p.master_fd() == fds[0] && p.slave_fd() == fds[1])),
            pipe_fds matches Ok(fds) ==> (direction == PipeDirection::MasterWrite ==> (r matches Ok(
                p,
            ) && p.master_fd() == fds[1] && p.slave_fd() == fds[0])),
    {
        match pipe_fds {
            Err(e) => Err(e),
            Ok(fds) => {
                let read = fds[0];
                let write = fds[1];
                let (master, slave) = match direction {
                    PipeDirection::MasterWrite => (write, read),
                    PipeDirection::MasterRead => (read, write),
                };
                Ok(Plumbing { master, slave, slave_target })
            },
        }
    }

    /// The steps that install a plumbing in the child: release the master
    /// end; then, if the slave end is not already the target, make the
    /// target refer to it and release the original slave descriptor, which
    /// is released whether or not that succeeded. If the slave end already
    /// is the target (the target was closed when the pipe was made), it is
    /// handed over open as the target.
    pub open spec fn install_steps(self) -> Seq<ChildStep> {
        if self.slave_fd() != self.target_fd() {
            seq![
                ChildStep::Release(self.master_fd()),
                ChildStep::Redirect(self.slave_fd(), self.target_fd()),
                ChildStep::Release(self.slave_fd()),
            ]
        } else {
            seq![ChildStep::Release(self.master_fd()), ChildStep::Adopt(self.slave_fd())]
        }
    }

    fn install_steps_exec(&self) -> (steps: Vec<ChildStep>)
        ensures
            steps@ == self.install_steps(),
    {
        let target = self.slave_target.as_raw_fd();
        if self.slave != target {
            let steps = vec![
                ChildStep::Release(self.master),
                ChildStep::Redirect(self.slave, target),
                ChildStep::Release(self.slave),
            ];
            assert(steps@ =~= self.install_steps());
            steps
        } else {
            let steps = vec![ChildStep::Release(self.master), ChildStep::Adopt(self.slave)];
            assert(steps@ =~= self.install_steps());
            steps
        }
    }

    /// Consumes the plumbing on the child's side of the fork, returning the
    /// steps the child takes to install it, in order.
    pub fn install_in_child(self) -> (steps: Vec<ChildStep>)
        ensures
            steps@ == self.install_steps(),
            self.slave_fd() != self.target_fd() ==> steps@ == seq![
                ChildStep::Release(self.master_fd()),
                ChildStep::Redirect(self.slave_fd(), self.target_fd()),
                ChildStep::Release(self.slave_fd()),
            ],
            self.slave_fd() == self.target_fd() ==> steps@ == seq![
                ChildStep::Release(self.master_fd()),
                ChildStep::Adopt(self.slave_fd()),
            ],
    {
        self.install_steps_exec()
    }

    /// Consumes the plumbing on the parent's side of the fork: the parent
    /// keeps the master end (the first) and releases the slave end (the
    /// second).
    pub fn into_parent(self) -> (r: (i32, i32))
        ensures
            r.0 == self.master_fd(),
            r.1 == self.slave_fd(),
    {
        (self.master, self.slave)
    }
}

/// Installing a plumbing in the child, from any descriptor table where the
/// two ends of its pipe are open (the child owns them), whether or not
/// something failed before.
///
/// The installation fails exactly when something failed before, or when
/// the slave end is not the target and cannot be duplicated onto it (the
/// target is negative). Whatever happens the
/// master end is released, unless it became the target; and the original
/// slave descriptor is released, unless it is handed over as the target.
/// On success the target refers to what the slave end referred to. On a
/// failure nothing but the two pipe ends changes.
pub proof fn lemma_install_in_child(p: Plumbing, t: FdTable, failed: bool)
    requires
        p.master_fd() != p.slave_fd(),
        t.contains_key(p.master_fd() as int),
        t.contains_key(p.slave_fd() as int),
    ensures
        ({
            let (t2, f2) = run_steps(t, p.install_steps(), failed);
            let m = p.master_fd() as int;
            let s = p.slave_fd() as int;
            let target = p.target_fd() as int;
            &&& f2 == (failed || (s != target && target < 0))
            &&& !f2 ==> t2.contains_key(target) && t2[target] == t[s]
            &&& (f2 || m != target) ==> !t2.contains_key(m)
            &&& (f2 || s != target) ==> !t2.contains_key(s)
            &&& forall|f: int|
                f != m && f != s && (f2 || f != target) ==> (#[trigger] t2.contains_key(f)
                    == t.contains_key(f) && (t.contains_key(f) ==> t2[f] == t[f]))
        }),
{
    let steps = p.install_steps();
    let m = p.master_fd();
    let s = p.slave_fd();
    let t1 = t.remove(m as int);
    assert(step_table(t, steps[0], failed) == (t1, failed));
    if s != p.target_fd() {
        let ok = !failed && t1.contains_key(s as int) && p.target_fd() >= 0;
        let t2 = if ok {
            t1.insert(p.target_fd() as int, t1[s as int])
        } else {
            t1
        };
        assert(step_table(t1, steps[1], failed) == (t2, !ok));
        let t3 = t2.remove(s as int);
        assert(step_table(t2, steps[2], !ok) == (t3, !ok));
        assert(steps.drop_first().drop_first().drop_first() =~= Seq::<ChildStep>::empty());
        assert(run_steps(t3, Seq::<ChildStep>::empty(), !ok) == (t3, !ok));
        assert(run_steps(t2, steps.drop_first().drop_first(), !ok) == (t3, !ok));
        assert(run_steps(t1, steps.drop_first(), failed) == (t3, !ok));
        assert(run_steps(t, steps, failed) == (t3, !ok));
    } else {
        let t2 = if failed {
            t1.remove(s as int)
        } else {
            t1
        };
        assert(step_table(t1, steps[1], failed) == (t2, failed));
        assert(steps.drop_first().drop_first() =~= Seq::<ChildStep>::empty());
        assert(run_steps(t2, Seq::<ChildStep>::empty(), failed) == (t2, failed));
        assert(run_steps(t1, steps.drop_first(), failed) == (t2, failed));
        assert(run_steps(t, steps, failed) == (t2, failed));
    }
}

/// Making a plumbing and handing its master end to the parent leaves every
/// descriptor that was open before the pipe was made (the standard
/// descriptors among them) as it was, and keeps the master end open: `pipe`
/// hands out two descriptors that were not open, `read` and `write`.
pub proof fn lemma_plumbing_preserves_parent_descriptors(
    t: FdTable,
    direction: PipeDirection,
    read: i32,
    write: i32,
    read_file: int,
    write_file: int,
)
    requires
        !t.contains_key(read as int),
        !t.contains_key(write as int),
        read != write,
    ensures
        ({
            let (master, slave) = pipe_ends(direction, read, write);
            let with_pipe = t.insert(read as int, read_file).insert(write as int, write_file);
            let after = release_all(with_pipe, seq![slave]);
            &&& after.contains_key(master as int)
            &&& !after.contains_key(slave as int)
            &&& forall|f: int| #[trigger] t.contains_key(f) ==> after.contains_key(f) && after[f]
                == t[f]
        }),
{
    let (master, slave) = pipe_ends(direction, read, write);
    let with_pipe = t.insert(read as int, read_file).insert(write as int, write_file);
    assert(seq![slave].drop_last() =~= Seq::<i32>::empty());
    assert(release_all(with_pipe, Seq::<i32>::empty()) == with_pipe);
    assert(release_all(with_pipe, seq![slave]) == with_pipe.remove(slave as int));
}

/// The masters of a sequence of plumbings, in order.
pub open spec fn masters(ps: Seq<Plumbing>) -> Seq<i32>
    decreases ps.len(),
{
    if ps.len() == 0 {
        Seq::empty()
    } else {
        masters(ps.drop_last()).push(ps.last().master_fd())
    }
}

/// The slaves of a sequence of plumbings, in order.
pub open spec fn slaves(ps: Seq<Plumbing>) -> Seq<i32>
    decreases ps.len(),
{
    if ps.len() == 0 {
        Seq::empty()
    } else {
        slaves(ps.drop_last()).push(ps.last().slave_fd())
    }
}

/// Every descriptor of a sequence of plumbings: master then slave, for
/// each plumbing in order.
pub open spec fn plumbing_fds(ps: Seq<Plumbing>) -> Seq<i32>
    decreases ps.len(),
{
    if ps.len() == 0 {
        Seq::empty()
    } else {
        plumbing_fds(ps.drop_last()) + seq![ps.last().master_fd(), ps.last().slave_fd()]
    }
}

/// The child's installation of a sequence of plumbings: each one's steps,
/// in the order the plumbings were added.
pub open spec fn install_all(ps: Seq<Plumbing>) -> Seq<ChildStep>
    decreases ps.len(),
{
    if ps.len() == 0 {
        Seq::empty()
    } else {
        install_all(ps.drop_last()) + ps.last().install_steps()
    }
}

/// The sequence holding the descriptor of an optional one.
pub open spec fn opt_seq(fd: Option<i32>) -> Seq<i32> {
    match fd {
        Some(f) => seq![f],
        None => Seq::empty(),
    }
}

struct PreparedPty {
    master: i32,
    slave_name: Vec<u8>,
}

/// Setup configuration for spawning a child process: it owns the master of
/// an optional pty, with that pty's slave name resolved, and the pipes of
/// every plumbing, until `spawn` divides them.
pub struct PtyKnotSetup {
    pty: Option<PreparedPty>,
    plumbing: Vec<Plumbing>,
}

/// Handles retained by the parent process: the pty master, if the setup
/// had a pty, and the master end of each pipe in the order the plumbings
/// were added.
pub struct ParentHandles {
    pty: Option<i32>,
    pipes: Vec<i32>,
}

/// The result of spawning a child process.
pub struct Spawned {
    /// Handles to communicate with the child.
    pub handles: ParentHandles,
    /// Information about the child process.
    pub knot: PtyKnot,
}

/// Where a process stands after `fork`.
pub enum Forked {
    /// The fork failed with the given error; the setup is gone and every
    /// descriptor it owned, listed, is released.
    Failed(SysError, Vec<i32>),
    /// This is the child, which takes the steps of the given run.
    Child(ChildRun),
    /// This is the parent, which keeps the given handles and releases the
    /// descriptors listed.
    Parent(Spawned, Vec<i32>),
}

impl ParentHandles {
    /// The pty master the parent keeps, if any.
    pub closed spec fn pty_fd(self) -> Option<i32> {
        self.pty
    }

    /// The pipe ends the parent keeps, in setup order.
    pub closed spec fn pipe_fds(self) -> Seq<i32> {
        self.pipes@
    }

    /// Consume the handles, returning the pty master and the pipes.
    pub fn into_parts(self) -> (r: (Option<i32>, Vec<i32>))
        ensures
            r.0 == self.pty_fd(),
            r.1@ == self.pipe_fds(),
    {
        (self.pty, self.pipes)
    }
}

impl Spawned {
    /// Consume the result, returning handles and knot.
    pub fn into_parts(self) -> (r: (ParentHandles, PtyKnot))
        ensures
            r.0 == self.handles,
            r.1 == self.knot,
    {
        (self.handles, self.knot)
    }
}

impl PtyKnotSetup {
    /// The master of the prepared pty, if any.
    pub closed spec fn pty_master(self) -> Option<i32> {
        match self.pty {
            Some(p) => Some(p.master),
            None => None,
        }
    }

    /// The resolved slave name of the prepared pty, if any.
    pub closed spec fn pty_slave_name(self) -> Option<Seq<u8>> {
        match self.pty {
            Some(p) => Some(p.slave_name@),
            None => None,
        }
    }

    /// The plumbings, in the order they were added.
    pub closed spec fn plumbings(self) -> Seq<Plumbing> {
        self.plumbing@
    }

    /// Every descriptor the setup owns: the pty master, then the ends of
    /// each pipe.
    pub open spec fn owned_fds(self) -> Seq<i32> {
        opt_seq(self.pty_master()) + plumbing_fds(self.plumbings())
    }

    /// Create a new setup configuration, owning nothing.
    pub fn new() -> (s: Self)
        ensures
            s.pty_master().is_none(),
            s.pty_slave_name().is_none(),
            s.plumbings() == Seq::<Plumbing>::empty(),
    {
        PtyKnotSetup { pty: None, plumbing: Vec::new() }
    }

    fn owned_fds_exec(&self) -> (fds: Vec<i32>)
        ensures
            fds@ == self.owned_fds(),
    {
        let mut fds: Vec<i32> = Vec::new();
        match &self.pty {
            Some(p) => fds.push(p.master),
            None => {},
        }
        assert(fds@ =~= opt_seq(self.pty_master()));
        let n = self.plumbing.len();
        let mut i: usize = 0;
        while i < n
            invariant
                n == self.plumbing@.len(),
                0 <= i <= n,
                fds@ == opt_seq(self.pty_master()) + plumbing_fds(self.plumbing@.take(i as int)),
            decreases n - i,
        {
            let ghost before = self.plumbing@.take(i as int);
            let ghost after = self.plumbing@.take(i + 1);
            assert(after.drop_last() =~= before);
            assert(after.last() == self.plumbing@[i as int]);
            fds.push(self.plumbing[i].master);
            fds.push(self.plumbing[i].slave);
            assert(fds@ =~= opt_seq(self.pty_master()) + plumbing_fds(after));
            i = i + 1;
        }
        assert(self.plumbing@.take(n as int) =~= self.plumbing@);
        fds
    }

    /// Add a pty to the setup: `master` is the pty's master and
    /// `slave_name` the result of resolving its slave's name with
    /// `ptsname`. Returns the new setup, or the error of `ptsname`, and the
    /// descriptors that go out of use and are to be released: the previous
    /// pty master if the new one replaces one, and on an error everything
    /// the setup owned together with `master`.
    pub fn with_pty(self, master: i32, slave_name: Result<Vec<u8>, SysError>) -> (r: (
        Result<PtyKnotSetup, SysError>,
        Vec<i32>,
    ))
        ensures
            slave_name is Err ==> r.0 == Err::<PtyKnotSetup, SysError>(slave_name->Err_0) && r.1@
                == self.owned_fds().push(master),
            slave_name matches Ok(name) ==> r.0 matches Ok(s) && s.pty_master() == Some(master)
                && s.pty_slave_name() == Some(name@) && s.plumbings() == self.plumbings() && r.1@
                == opt_seq(self.pty_master()),
    {
        match slave_name {
            Err(e) => {
                let mut fds = self.owned_fds_exec();
                fds.push(master);
                (Err(e), fds)
            },
            Ok(name) => {
                let mut fds: Vec<i32> = Vec::new();
                match &self.pty {
                    Some(p) => fds.push(p.master),
                    None => {},
                }
                assert(fds@ =~= opt_seq(self.pty_master()));
                let setup = PtyKnotSetup {
                    pty: Some(PreparedPty { master, slave_name: name }),
                    plumbing: self.plumbing,
                };
                (Ok(setup), fds)
            },
        }
    }

    /// Add a pipe to the setup, after those added before.
    pub fn with_plumbing(self, plumbing: Plumbing) -> (s: Self)
        ensures
            s.pty_master() == self.pty_master(),
            s.pty_slave_name() == self.pty_slave_name(),
            s.plumbings() == self.plumbings().push(plumbing),
    {
        let mut s = self;
        s.plumbing.push(plumbing);
        s
    }

    /// Gives the setup up without spawning: every descriptor it owns goes
    /// out of use; they are returned, to be released.
    pub fn release(self) -> (fds: Vec<i32>)
        ensures
            fds@ == self.owned_fds(),
    {
        self.owned_fds_exec()
    }

    /// The pty's part of the child's steps: release the master, then open
    /// the slave as the controlling terminal; nothing without a pty.
    pub closed spec fn pty_steps(self) -> Seq<ChildStep> {
        match self.pty {
            Some(p) => seq![ChildStep::Release(p.master), ChildStep::OpenTerminal(p.slave_name)],
            None => Seq::empty(),
        }
    }

    /// Every step the child takes, in order: a new session, the pty's
    /// steps, the installation of every plumbing, and the action.
    pub open spec fn child_steps(self) -> Seq<ChildStep> {
        seq![ChildStep::NewSession] + self.pty_steps() + install_all(self.plumbings()) + seq![
            ChildStep::RunAction,
        ]
    }

    fn child_plumbing_steps(&self) -> (steps: Vec<ChildStep>)
        ensures
            steps@ == install_all(self.plumbings()),
    {
        let mut steps: Vec<ChildStep> = Vec::new();
        let n = self.plumbing.len();
        let mut i: usize = 0;
        assert(self.plumbing@.take(0) =~= Seq::<Plumbing>::empty());
        while i < n
            invariant
                n == self.plumbing@.len(),
                0 <= i <= n,
                steps@ == install_all(self.plumbing@.take(i as int)),
            decreases n - i,
        {
            let ghost before = self.plumbing@.take(i as int);
            let ghost after = self.plumbing@.take(i + 1);
            assert(after.drop_last() =~= before);
            assert(after.last() == self.plumbing@[i as int]);
            let mut more = self.plumbing[i].install_steps_exec();
            steps.append(&mut more);
            assert(steps@ =~= install_all(after));
            i = i + 1;
        }
        assert(self.plumbing@.take(n as int) =~= self.plumbing@);
        steps
    }

    fn parent_pipes(&self) -> (r: (Vec<i32>, Vec<i32>))
        ensures
            r.0@ == masters(self.plumbings()),
            r.1@ == slaves(self.plumbings()),
    {
        let mut pipes: Vec<i32> = Vec::new();
        let mut release: Vec<i32> = Vec::new();
        let n = self.plumbing.len();
        let mut i: usize = 0;
        assert(self.plumbing@.take(0) =~= Seq::<Plumbing>::empty());
        while i < n
            invariant
                n == self.plumbing@.len(),
                0 <= i <= n,
                pipes@ == masters(self.plumbing@.take(i as int)),
                release@ == slaves(self.plumbing@.take(i as int)),
            decreases n - i,
        {
            let ghost before = self.plumbing@.take(i as int);
            let ghost after = self.plumbing@.take(i + 1);
            assert(after.drop_last() =~= before);
            assert(after.last() == self.plumbing@[i as int]);
            pipes.push(self.plumbing[i].master);
            release.push(self.plumbing[i].slave);
            assert(pipes@ =~= masters(after));
            assert(release@ =~= slaves(after));
            i = i + 1;
        }
        assert(self.plumbing@.take(n as int) =~= self.plumbing@);
        (pipes, release)
    }

    /// Divides the setup between the two sides of a fork, given what
    /// `fork(2)` returned and the `errno` observed right after it.
    ///
    /// On a failure (`-1`) the error is reported and every descriptor the
    /// setup owned is released. The child (`0`) takes these steps in
    /// order: start a new session; if there is a pty, release its master
    /// and open its slave as the controlling terminal; install every
    /// plumbing in the order they were added; run the action. The parent
    /// (any other value, the child's process ID) keeps the pty master and
    /// the master end of every pipe, in the order the plumbings were
    /// added, releases the slave ends, and will reap the child.
    pub fn spawn(self, fork_ret: i32, errno: i32) -> (r: Forked)
        ensures
            fork_ret == -1 ==> (r matches Forked::Failed(e, fds) && e == SysError::Os(errno)
                && fds@ == self.owned_fds()),
            fork_ret == 0 ==> (r matches Forked::Child(run) && !run.failed() && !run.pending()
                && run.steps() == self.child_steps() && {
                let st = run.steps();
                let k: int = 2 * opt_seq(self.pty_master()).len() as int;
                let n: int = install_all(self.plumbings()).len() as int;
                &&& st.len() == k + n + 2
                &&& st[0] == ChildStep::NewSession
                &&& (self.pty_master() matches Some(m) ==> st[1] == ChildStep::Release(m) && (
                st[2] matches ChildStep::OpenTerminal(name) && self.pty_slave_name() == Some(
                    name@,
                )))
                &&& st.subrange(k + 1, k + n + 1) == install_all(self.plumbings())
                &&& st[k + n + 1] == ChildStep::RunAction
            }),
            fork_ret != -1 && fork_ret != 0 ==> (r matches Forked::Parent(spawned, fds)
                && spawned.handles.pty_fd() == self.pty_master() && spawned.handles.pipe_fds()
                == masters(self.plumbings()) && spawned.knot.pid == Some(fork_ret) && fds@
                == slaves(self.plumbings())),
            fork_ret != -1 && fork_ret != 0 ==> (r matches Forked::Parent(spawned, fds) && {
                &&& spawned.handles.pipe_fds().len() == self.plumbings().len()
                &&& fds@.len() == self.plumbings().len()
                &&& forall|i: int|
                    0 <= i < self.plumbings().len() ==> spawned.handles.pipe_fds()[i]
                        == #[trigger] self.plumbings()[i].master_fd() && fds@[i]
                        == self.plumbings()[i].slave_fd()
            }),
            fork_ret == -1 ==> (r matches Forked::Failed(_, fds) && {
                let o = opt_seq(self.pty_master()).len() as int;
                &&& fds@.len() == o + 2 * self.plumbings().len()
                &&& self.pty_master() matches Some(m) ==> fds@[0] == m
                &&& forall|i: int|
                    0 <= i < self.plumbings().len() ==> fds@[o + 2 * i]
                        == #[trigger] self.plumbings()[i].master_fd() && fds@[o + 2 * i + 1]
                        == self.plumbings()[i].slave_fd()
            }),
    {
        match crate::sys::check(fork_ret, errno) {
            Err(e) => {
                let fds = self.owned_fds_exec();
                proof {
                    lemma_owned_fds_layout(self);
                }
                Forked::Failed(e, fds)
            },
            Ok(pid) => {
                if pid == 0 {
                    let mut plumbing = self.child_plumbing_steps();
                    let ghost install = plumbing@;
                    let mut steps: Vec<ChildStep> = vec![ChildStep::NewSession];
                    match self.pty {
                        Some(prepared) => {
                            steps.push(ChildStep::Release(prepared.master));
                            steps.push(ChildStep::OpenTerminal(prepared.slave_name));
                        },
                        None => {},
                    }
                    let ghost k = steps@.len() - 1;
                    assert(k == 2 * opt_seq(self.pty_master()).len());
                    steps.append(&mut plumbing);
                    steps.push(ChildStep::RunAction);
                    assert(steps@.subrange(k + 1, k + install.len() + 1) =~= install);
                    assert(steps@ =~= self.child_steps());
                    Forked::Child(ChildRun::new(steps))
                } else {
                    let (pipes, release) = self.parent_pipes();
                    let pty = match self.pty {
                        Some(prepared) => Some(prepared.master),
                        None => None,
                    };
                    proof {
                        lemma_parent_layout(self.plumbing@);
                    }
                    let handles = ParentHandles { pty, pipes };
                    let knot = PtyKnot { pid: Some(pid) };
                    Forked::Parent(Spawned { handles, knot }, release)
                }
            },
        }
    }
}

proof fn lemma_plumbing_fds_split(ps: Seq<Plumbing>)
    ensures
        plumbing_fds(ps).to_multiset() =~= masters(ps).to_multiset().add(slaves(ps).to_multiset()),
    decreases ps.len(),
{
    broadcast use vstd::seq_lib::group_to_multiset_ensures, vstd::multiset::group_multiset_axioms;

    if ps.len() > 0 {
        let rest = ps.drop_last();
        let pair = seq![ps.last().master_fd(), ps.last().slave_fd()];
        lemma_plumbing_fds_split(rest);
        lemma_multiset_commutative(plumbing_fds(rest), pair);
        assert(pair =~= Seq::<i32>::empty().push(ps.last().master_fd()).push(ps.last().slave_fd()));
        assert(Seq::<i32>::empty().to_multiset() =~= Multiset::empty());
    }
}

proof fn lemma_slaves_index(ps: Seq<Plumbing>, k: int)
    requires
        0 <= k < ps.len(),
    ensures
        slaves(ps).len() == ps.len(),
        slaves(ps)[k] == ps[k].slave_fd(),
    decreases ps.len(),
{
    let rest = ps.drop_last();
    if rest.len() > 0 {
        if k < ps.len() - 1 {
            lemma_slaves_index(rest, k);
        } else {
            lemma_slaves_index(rest, 0);
        }
    } else {
        assert(slaves(rest) =~= Seq::<i32>::empty());
    }
}

/// Whether the child's installation of the plumbings holds a step.
pub open spec fn installs(ps: Seq<Plumbing>, step: ChildStep) -> bool {
    install_all(ps).contains(step)
}

proof fn lemma_install_all_contains(ps: Seq<Plumbing>, i: int)
    requires
        0 <= i < ps.len(),
    ensures
        installs(ps, ChildStep::Release(ps[i].master_fd())),
        ps[i].slave_fd() != ps[i].target_fd() ==> installs(
            ps,
            ChildStep::Redirect(ps[i].slave_fd(), ps[i].target_fd()),
        ) && installs(ps, ChildStep::Release(ps[i].slave_fd())),
        ps[i].slave_fd() == ps[i].target_fd() ==> installs(ps, ChildStep::Adopt(ps[i].slave_fd())),
    decreases ps.len(),
{
    let rest = ps.drop_last();
    let all = install_all(ps);
    let prefix = install_all(rest);
    let own = ps.last().install_steps();
    assert(all == prefix + own);
    if i < ps.len() - 1 {
        assert(rest[i] == ps[i]);
        lemma_install_all_contains(rest, i);
        assert forall|step: ChildStep| prefix.contains(step) implies all.contains(step) by {
            let k = choose|k: int| 0 <= k < prefix.len() && prefix[k] == step;
            assert(all[k] == prefix[k]);
        }
    } else {
        let base = prefix.len() as int;
        assert(all[base] == own[0]);
        assert(all[base + 1] == own[1]);
        if ps[i].slave_fd() != ps[i].target_fd() {
            assert(all[base + 2] == own[2]);
        }
    }
}

/// Spawning divides the setup's descriptors between the two processes.
/// The parent keeps the pty master and the pipe masters and releases the
/// pipe slaves: together exactly the descriptors the setup owned, each as
/// often as it owned it. The child releases every pipe master; it
/// redirects every target that differs from its slave end and then
/// releases that slave end, and adopts every slave end that already is its
/// target.
pub proof fn lemma_spawn_divides_descriptors(s: PtyKnotSetup)
    ensures
        (opt_seq(s.pty_master()) + masters(s.plumbings())).to_multiset().add(
            slaves(s.plumbings()).to_multiset(),
        ) == s.owned_fds().to_multiset(),
        forall|i: int|
            0 <= i < s.plumbings().len() ==> installs(
                s.plumbings(),
                ChildStep::Release(#[trigger] s.plumbings()[i].master_fd()),
            ),
        forall|i: int|
            0 <= i < s.plumbings().len() && #[trigger] s.plumbings()[i].slave_fd()
                != s.plumbings()[i].target_fd() ==> installs(
                s.plumbings(),
                ChildStep::Redirect(s.plumbings()[i].slave_fd(), s.plumbings()[i].target_fd()),
            ) && installs(s.plumbings(), ChildStep::Release(s.plumbings()[i].slave_fd())),
        forall|i: int|
            0 <= i < s.plumbings().len() && #[trigger] s.plumbings()[i].slave_fd()
                == s.plumbings()[i].target_fd() ==> installs(
                s.plumbings(),
                ChildStep::Adopt(s.plumbings()[i].slave_fd()),
            ),
{
    broadcast use vstd::multiset::group_multiset_axioms;

    let ps = s.plumbings();
    let pty = opt_seq(s.pty_master());
    lemma_plumbing_fds_split(ps);
    lemma_multiset_commutative(pty, masters(ps));
    lemma_multiset_commutative(pty, plumbing_fds(ps));
    assert((pty + masters(ps)).to_multiset().add(slaves(ps).to_multiset())
        =~= s.owned_fds().to_multiset());
    assert forall|i: int| 0 <= i < ps.len() implies installs(
        ps,
        ChildStep::Release(#[trigger] ps[i].master_fd()),
    ) by {
        lemma_install_all_contains(ps, i);
    }
    assert forall|i: int|
        0 <= i < ps.len() && #[trigger] ps[i].slave_fd() != ps[i].target_fd() implies installs(
            ps,
            ChildStep::Redirect(ps[i].slave_fd(), ps[i].target_fd()),
        ) && installs(ps, ChildStep::Release(ps[i].slave_fd())) by {
        lemma_install_all_contains(ps, i);
    }
    assert forall|i: int|
        0 <= i < ps.len() && #[trigger] ps[i].slave_fd() == ps[i].target_fd() implies installs(
            ps,
            ChildStep::Adopt(ps[i].slave_fd()),
        ) by {
        lemma_install_all_contains(ps, i);
    }
}

/// Where the setup owns each descriptor once, the parent never releases a
/// descriptor that it keeps: the slave ends it releases are neither the
/// pty master nor any pipe master that it hands to its caller.
pub proof fn lemma_parent_never_releases_a_kept_descriptor(s: PtyKnotSetup)
    requires
        s.owned_fds().no_duplicates(),
    ensures
        forall|fd: i32|
            #[trigger] (opt_seq(s.pty_master()) + masters(s.plumbings())).contains(fd)
                ==> !slaves(s.plumbings()).contains(fd),
{
    broadcast use vstd::seq_lib::group_to_multiset_ensures, vstd::multiset::group_multiset_axioms;

    let kept = opt_seq(s.pty_master()) + masters(s.plumbings());
    let released = slaves(s.plumbings());
    lemma_spawn_divides_descriptors(s);
    s.owned_fds().lemma_multiset_has_no_duplicates();
    assert forall|fd: i32| #[trigger] kept.contains(fd) implies !released.contains(fd) by {
        if released.contains(fd) {
            assert(kept.to_multiset().count(fd) > 0);
            assert(released.to_multiset().count(fd) > 0);
            assert(s.owned_fds().to_multiset().count(fd) >= 2);
            assert(s.owned_fds().to_multiset().contains(fd));
        }
    }
}

/// Whether `f` is the slave end of one of the plumbings.
pub open spec fn is_slave(ps: Seq<Plumbing>, f: int) -> bool {
    exists|i: int| 0 <= i < ps.len() && #[trigger] ps[i].slave_fd() as int == f
}

/// The parent's side of the fork, where no pipe master is a pipe slave:
/// releasing the slave ends closes exactly them, so every pipe master that
/// was open (and every other descriptor) stays open and as it was.
pub proof fn lemma_parent_releases_only_slaves(ps: Seq<Plumbing>, t: FdTable)
    requires
        forall|i: int, j: int|
            0 <= i < ps.len() && 0 <= j < ps.len() ==> #[trigger] ps[i].master_fd()
                != #[trigger] ps[j].slave_fd(),
    ensures
        ({
            let t2 = release_all(t, slaves(ps));
            &&& forall|f: int| #[trigger] t2.contains_key(f) == (t.contains_key(f) && !is_slave(ps, f))
            &&& forall|f: int| #[trigger] t2.contains_key(f) ==> t2[f] == t[f]
            &&& forall|i: int|
                0 <= i < ps.len() && t.contains_key(ps[i].master_fd() as int) ==> t2.contains_key(
                    #[trigger] ps[i].master_fd() as int,
                )
        }),
{
    let sl = slaves(ps);
    let t2 = release_all(t, sl);
    lemma_release_all(t, sl);
    if ps.len() > 0 {
        lemma_slaves_index(ps, 0);
    } else {
        assert(sl =~= Seq::<i32>::empty());
    }
    assert forall|f: int| #[trigger] t2.contains_key(f) == (t.contains_key(f) && !is_slave(ps, f)) by {
        if exists|k: int| 0 <= k < sl.len() && sl[k] as int == f {
            let k = choose|k: int| 0 <= k < sl.len() && sl[k] as int == f;
            lemma_slaves_index(ps, k);
            assert(ps[k].slave_fd() as int == f);
        }
        if is_slave(ps, f) {
            let k = choose|k: int| 0 <= k < ps.len() && #[trigger] ps[k].slave_fd() as int == f;
            lemma_slaves_index(ps, k);
            assert(sl[k] as int == f);
        }
    }
    assert forall|i: int|
        0 <= i < ps.len() && t.contains_key(ps[i].master_fd() as int) implies t2.contains_key(
        #[trigger] ps[i].master_fd() as int,
    ) by {
        if is_slave(ps, ps[i].master_fd() as int) {
            let k = choose|k: int|
                0 <= k < ps.len() && #[trigger] ps[k].slave_fd() as int == ps[i].master_fd() as int;
            assert(ps[i].master_fd() != ps[k].slave_fd());
        }
    }
}

/// The plumbings' pipes are all open in `t` and apart from each other: the
/// two ends of each pipe differ, no descriptor belongs to two pipes, no two
/// plumbings share a target, no master is any target, and no slave is
/// another plumbing's target. A slave may be its own target: its target
/// was closed when the pipe was made.
pub open spec fn plumbings_apart(ps: Seq<Plumbing>, t: FdTable) -> bool {
    &&& forall|i: int|
        0 <= i < ps.len() ==> {
            &&& t.contains_key(#[trigger] ps[i].master_fd() as int)
            &&& t.contains_key(ps[i].slave_fd() as int)
            &&& ps[i].master_fd() != ps[i].slave_fd()
            &&& ps[i].target_fd() >= 0
        }
    &&& forall|i: int, j: int|
        0 <= i < ps.len() && 0 <= j < ps.len() && i != j ==> {
            &&& #[trigger] ps[i].master_fd() != #[trigger] ps[j].master_fd()
            &&& ps[i].master_fd() != ps[j].slave_fd()
            &&& ps[i].slave_fd() != ps[j].slave_fd()
            &&& ps[i].target_fd() != ps[j].target_fd()
            &&& ps[i].slave_fd() != ps[j].target_fd()
        }
    &&& forall|i: int, j: int|
        0 <= i < ps.len() && 0 <= j < ps.len() ==> #[trigger] ps[i].master_fd()
            != #[trigger] ps[j].target_fd()
}

proof fn lemma_apart_prefix(ps: Seq<Plumbing>, t: FdTable)
    requires
        ps.len() > 0,
        plumbings_apart(ps, t),
    ensures
        plumbings_apart(ps.drop_last(), t),
{
    let rest = ps.drop_last();
    assert forall|i: int| 0 <= i < rest.len() implies #[trigger] rest[i] == ps[i] by {}
    assert forall|i: int, j: int|
        0 <= i < rest.len() && 0 <= j < rest.len() && i != j implies {
        &&& #[trigger] rest[i].master_fd() != #[trigger] rest[j].master_fd()
        &&& rest[i].master_fd() != rest[j].slave_fd()
        &&& rest[i].slave_fd() != rest[j].slave_fd()
        &&& rest[i].target_fd() != rest[j].target_fd()
        &&& rest[i].slave_fd() != rest[j].target_fd()
    } by {
        assert(ps[i].master_fd() != ps[j].master_fd());
    }
    assert forall|i: int, j: int| 0 <= i < rest.len() && 0 <= j < rest.len() implies #[trigger] rest[i].master_fd()
        != #[trigger] rest[j].target_fd() by {
        assert(ps[i].master_fd() != ps[j].target_fd());
    }
    assert forall|i: int| 0 <= i < rest.len() implies {
        &&& t.contains_key(#[trigger] rest[i].master_fd() as int)
        &&& t.contains_key(rest[i].slave_fd() as int)
        &&& rest[i].master_fd() != rest[i].slave_fd()
        &&& rest[i].target_fd() >= 0
    } by {
        assert(t.contains_key(ps[i].master_fd() as int));
    }
}

/// Whether `f` is one of the plumbings' pipe descriptors.
pub open spec fn pipe_fd(ps: Seq<Plumbing>, f: int) -> bool {
    exists|i: int|
        0 <= i < ps.len() && (f == #[trigger] ps[i].master_fd() || f == ps[i].slave_fd())
}

/// Whether `f` is one of the plumbings' pipe descriptors or targets.
pub open spec fn touched_by(ps: Seq<Plumbing>, f: int) -> bool {
    pipe_fd(ps, f) || exists|i: int| 0 <= i < ps.len() && f == #[trigger] ps[i].target_fd()
}

/// The last plumbing's pipe is untouched by the others, and touching by
/// the whole sequence is touching by the others or by the last one.
proof fn lemma_last_apart(ps: Seq<Plumbing>, t: FdTable)
    requires
        ps.len() > 0,
        plumbings_apart(ps, t),
    ensures
        !touched_by(ps.drop_last(), ps.last().master_fd() as int),
        !touched_by(ps.drop_last(), ps.last().slave_fd() as int),
        forall|f: int|
            #[trigger] touched_by(ps, f) == (touched_by(ps.drop_last(), f) || f
                == ps.last().master_fd() || f == ps.last().slave_fd() || f
                == ps.last().target_fd()),
        forall|f: int|
            #[trigger] pipe_fd(ps, f) == (pipe_fd(ps.drop_last(), f) || f == ps.last().master_fd()
                || f == ps.last().slave_fd()),
{
    let rest = ps.drop_last();
    let n = ps.len() - 1;
    let m = ps.last().master_fd() as int;
    let sl = ps.last().slave_fd() as int;
    assert(ps.last() == ps[n]);
    assert forall|i: int| 0 <= i < rest.len() implies #[trigger] rest[i] == ps[i] by {}
    if pipe_fd(rest, m) {
        let i = choose|i: int|
            0 <= i < rest.len() && (m == #[trigger] rest[i].master_fd() || m == rest[i].slave_fd());
        assert(rest[i] == ps[i]);
        assert(ps[i].master_fd() != ps[n].master_fd());
    }
    if exists|i: int| 0 <= i < rest.len() && m == #[trigger] rest[i].target_fd() {
        let i = choose|i: int| 0 <= i < rest.len() && m == #[trigger] rest[i].target_fd();
        assert(rest[i] == ps[i]);
        assert(ps[n].master_fd() != ps[i].target_fd());
    }
    if pipe_fd(rest, sl) {
        let i = choose|i: int|
            0 <= i < rest.len() && (sl == #[trigger] rest[i].master_fd() || sl == rest[i].slave_fd());
        assert(rest[i] == ps[i]);
        assert(ps[i].master_fd() != ps[n].master_fd());
    }
    if exists|i: int| 0 <= i < rest.len() && sl == #[trigger] rest[i].target_fd() {
        let i = choose|i: int| 0 <= i < rest.len() && sl == #[trigger] rest[i].target_fd();
        assert(rest[i] == ps[i]);
        assert(ps[i].master_fd() != ps[n].master_fd());
    }
    assert forall|f: int| #[trigger] pipe_fd(ps, f) == (pipe_fd(rest, f) || f == m || f == sl) by {
        if pipe_fd(ps, f) {
            let i = choose|i: int|
                0 <= i < ps.len() && (f == #[trigger] ps[i].master_fd() || f == ps[i].slave_fd());
            if i < n {
                assert(rest[i] == ps[i]);
                assert(f == rest[i].master_fd() || f == rest[i].slave_fd());
            }
        }
        if pipe_fd(rest, f) {
            let i = choose|i: int|
                0 <= i < rest.len() && (f == #[trigger] rest[i].master_fd() || f == rest[i].slave_fd());
            assert(rest[i] == ps[i]);
            assert(f == ps[i].master_fd() || f == ps[i].slave_fd());
        }
        if f == m || f == sl {
            assert(f == ps[n].master_fd() || f == ps[n].slave_fd());
        }
    }
    assert forall|f: int| #[trigger] touched_by(ps, f) == (touched_by(rest, f) || f == m || f == sl
        || f == ps.last().target_fd()) by {
        assert(pipe_fd(ps, f) == (pipe_fd(rest, f) || f == m || f == sl));
        if exists|i: int| 0 <= i < ps.len() && f == #[trigger] ps[i].target_fd() {
            let i = choose|i: int| 0 <= i < ps.len() && f == #[trigger] ps[i].target_fd();
            if i < n {
                assert(rest[i] == ps[i]);
                assert(f == rest[i].target_fd());
            }
        }
        if exists|i: int| 0 <= i < rest.len() && f == #[trigger] rest[i].target_fd() {
            let i = choose|i: int| 0 <= i < rest.len() && f == #[trigger] rest[i].target_fd();
            assert(rest[i] == ps[i]);
            assert(f == ps[i].target_fd());
        }
        if f == ps.last().target_fd() {
            assert(f == ps[n].target_fd());
        }
    }
}

/// The child's installation of all its plumbings, on a table where the
/// pipes are open and apart, whether or not something failed before.
///
/// It never fails by itself. If nothing failed before, every target then
/// refers to its own pipe's slave end, every master is released, and every
/// slave end is released unless it already was its target. If something
/// failed before, every pipe descriptor is released and nothing else
/// changes. In both cases every descriptor no plumbing touches is left as
/// it was.
pub proof fn lemma_install_all(ps: Seq<Plumbing>, t: FdTable, failed: bool)
    requires
        plumbings_apart(ps, t),
    ensures
        ({
            let (t2, f2) = run_steps(t, install_all(ps), failed);
            &&& f2 == failed
            &&& !failed ==> forall|i: int|
                0 <= i < ps.len() ==> {
                    &&& t2.contains_key(#[trigger] ps[i].target_fd() as int)
                    &&& t2[ps[i].target_fd() as int] == t[ps[i].slave_fd() as int]
                    &&& !t2.contains_key(ps[i].master_fd() as int)
                    &&& ps[i].slave_fd() != ps[i].target_fd() ==> !t2.contains_key(
                        ps[i].slave_fd() as int,
                    )
                }
            &&& failed ==> forall|i: int|
                0 <= i < ps.len() ==> !t2.contains_key(#[trigger] ps[i].master_fd() as int)
                    && !t2.contains_key(ps[i].slave_fd() as int)
            &&& forall|f: int|
                !touched_by(ps, f) ==> (#[trigger] t2.contains_key(f) == t.contains_key(f) && (
                t.contains_key(f) ==> t2[f] == t[f]))
            &&& failed ==> forall|f: int|
                !pipe_fd(ps, f) ==> (#[trigger] t2.contains_key(f) == t.contains_key(f) && (
                t.contains_key(f) ==> t2[f] == t[f]))
        }),
    decreases ps.len(),
{
    if ps.len() == 0 {
        assert(install_all(ps) =~= Seq::<ChildStep>::empty());
        assert(run_steps(t, install_all(ps), failed) == (t, failed));
        assert forall|f: int| !touched_by(ps, f) implies (#[trigger] t.contains_key(f)
            == t.contains_key(f)) by {}
    } else {
        let rest = ps.drop_last();
        let last = ps.last();
        let n = ps.len() - 1;
        let m = last.master_fd() as int;
        let sl = last.slave_fd() as int;
        let tg = last.target_fd() as int;
        assert(last == ps[n]);
        assert forall|i: int| 0 <= i < rest.len() implies #[trigger] rest[i] == ps[i] by {}
        lemma_apart_prefix(ps, t);
        lemma_install_all(rest, t, failed);
        let (t1, f1) = run_steps(t, install_all(rest), failed);
        assert(install_all(ps) == install_all(rest) + last.install_steps());
        lemma_run_steps_append(t, install_all(rest), last.install_steps(), failed);
        assert(t.contains_key(ps[n].master_fd() as int));
        lemma_last_apart(ps, t);
        assert(t1.contains_key(m) && t1.contains_key(sl));
        assert(t1[sl] == t[sl]);
        lemma_install_in_child(last, t1, failed);
        let (t2, f2) = run_steps(t1, last.install_steps(), failed);
        assert(run_steps(t, install_all(ps), failed) == (t2, f2));
        assert(m != tg);
        assert(f2 == failed);
        if !failed {
            assert forall|i: int| 0 <= i < ps.len() implies {
                &&& t2.contains_key(#[trigger] ps[i].target_fd() as int)
                &&& t2[ps[i].target_fd() as int] == t[ps[i].slave_fd() as int]
                &&& !t2.contains_key(ps[i].master_fd() as int)
                &&& ps[i].slave_fd() != ps[i].target_fd() ==> !t2.contains_key(
                    ps[i].slave_fd() as int,
                )
            } by {
                if i < n {
                    assert(t1.contains_key(rest[i].target_fd() as int));
                    assert(ps[i].master_fd() != ps[n].master_fd());
                    assert(ps[n].master_fd() != ps[i].target_fd());
                    assert(ps[i].master_fd() != ps[n].target_fd());
                    assert(ps[i].master_fd() != ps[n].slave_fd());
                    assert(ps[n].master_fd() != ps[i].slave_fd());
                    assert(ps[i].slave_fd() != ps[n].slave_fd());
                    assert(ps[i].slave_fd() != ps[n].target_fd());
                    assert(ps[n].slave_fd() != ps[i].target_fd());
                    assert(ps[i].target_fd() != ps[n].target_fd());
                    assert(!t1.contains_key(ps[i].master_fd() as int));
                    assert(t2.contains_key(ps[i].target_fd() as int));
                    assert(t2[ps[i].target_fd() as int] == t1[ps[i].target_fd() as int]);
                    assert(!t2.contains_key(ps[i].master_fd() as int));
                    if ps[i].slave_fd() != ps[i].target_fd() {
                        assert(!t1.contains_key(rest[i].slave_fd() as int));
                        assert(!t2.contains_key(ps[i].slave_fd() as int));
                    }
                } else {
                    assert(ps[i] == last);
                }
            }
        } else {
            assert forall|i: int| 0 <= i < ps.len() implies !t2.contains_key(
                #[trigger] ps[i].master_fd() as int,
            ) && !t2.contains_key(ps[i].slave_fd() as int) by {
                if i < n {
                    assert(!t1.contains_key(rest[i].master_fd() as int));
                    assert(ps[i].master_fd() != ps[n].master_fd());
                } else {
                    assert(ps[i] == last);
                }
            }
            assert forall|f: int| !pipe_fd(ps, f) implies (#[trigger] t2.contains_key(f)
                == t.contains_key(f) && (t.contains_key(f) ==> t2[f] == t[f])) by {
                assert(pipe_fd(ps, f) == (pipe_fd(rest, f) || f == m || f == sl));
            }
        }
        assert forall|f: int| !touched_by(ps, f) implies (#[trigger] t2.contains_key(f)
            == t.contains_key(f) && (t.contains_key(f) ==> t2[f] == t[f])) by {
            assert(touched_by(ps, f) == (touched_by(rest, f) || f == m || f == sl || f == tg));
        }
    }
}

/// Whether a step of the installation is one the plumbings account for: a
/// redirection of some plumbing's target onto its own slave end, or the
/// release or adoption of one of their pipe descriptors.
pub open spec fn accounted(ps: Seq<Plumbing>, step: ChildStep) -> bool {
    match step {
        ChildStep::Redirect(old, new) => exists|i: int|
            0 <= i < ps.len() && old == #[trigger] ps[i].slave_fd() && new == ps[i].target_fd(),
        ChildStep::Release(fd) => pipe_fd(ps, fd as int),
        ChildStep::Adopt(fd) => pipe_fd(ps, fd as int),
        _ => false,
    }
}

/// The only descriptors the child redirects while installing its
/// plumbings are their targets, each onto its own pipe's slave end, and it
/// releases or adopts nothing but pipe descriptors: a pty becomes the
/// controlling terminal without replacing standard input, output or error.
pub proof fn lemma_child_redirects_only_plumbing_targets(ps: Seq<Plumbing>)
    ensures
        forall|k: int|
            0 <= k < install_all(ps).len() ==> accounted(ps, #[trigger] install_all(ps)[k]),
    decreases ps.len(),
{
    if ps.len() > 0 {
        let rest = ps.drop_last();
        let n = ps.len() - 1;
        let prefix = install_all(rest);
        let own = ps.last().install_steps();
        lemma_child_redirects_only_plumbing_targets(rest);
        assert(install_all(ps) == prefix + own);
        assert forall|i: int| 0 <= i < rest.len() implies #[trigger] rest[i] == ps[i] by {}
        assert(ps[n] == ps.last());
        assert forall|k: int| 0 <= k < install_all(ps).len() implies accounted(
            ps,
            #[trigger] install_all(ps)[k],
        ) by {
            if k < prefix.len() {
                assert(install_all(ps)[k] == prefix[k]);
                assert(accounted(rest, install_all(rest)[k]));
                match prefix[k] {
                    ChildStep::Redirect(old, new) => {
                        let i = choose|i: int|
                            0 <= i < rest.len() && old == #[trigger] rest[i].slave_fd() && new
                                == rest[i].target_fd();
                        assert(ps[i].slave_fd() == old);
                    },
                    ChildStep::Release(fd) => {
                        let i = choose|i: int|
                            0 <= i < rest.len() && (fd as int == #[trigger] rest[i].master_fd()
                                || fd as int == rest[i].slave_fd());
                        assert(ps[i].master_fd() == rest[i].master_fd());
                        assert(pipe_fd(ps, fd as int));
                    },
                    ChildStep::Adopt(fd) => {
                        let i = choose|i: int|
                            0 <= i < rest.len() && (fd as int == #[trigger] rest[i].master_fd()
                                || fd as int == rest[i].slave_fd());
                        assert(ps[i].master_fd() == rest[i].master_fd());
                        assert(pipe_fd(ps, fd as int));
                    },
                    _ => {},
                }
            } else {
                assert(install_all(ps)[k] == own[k - prefix.len()]);
                assert(ps[n].master_fd() == ps.last().master_fd());
                assert(pipe_fd(ps, ps.last().master_fd() as int));
                assert(pipe_fd(ps, ps.last().slave_fd() as int));
            }
        }
    }
}

/// Everything the child does to its descriptors, when its pipes are open
/// and apart and its pty master is open and no plumbing touches it, as long
/// as starting the session, opening the terminal and the action succeed.
///
/// Nothing fails; the pty master is released; every target refers to its
/// own pipe's slave end; every pipe master is released, and every slave
/// end unless it already was its target; every other descriptor is left as
/// it was.
pub proof fn lemma_child_run(s: PtyKnotSetup, t: FdTable)
    requires
        plumbings_apart(s.plumbings(), t),
        s.pty_master() matches Some(m) ==> t.contains_key(m as int) && !touched_by(
            s.plumbings(),
            m as int,
        ),
    ensures
        ({
            let ps = s.plumbings();
            let (t2, f2) = run_steps(t, s.child_steps(), false);
            &&& !f2
            &&& s.pty_master() matches Some(m) ==> !t2.contains_key(m as int)
            &&& forall|i: int|
                0 <= i < ps.len() ==> {
                    &&& t2.contains_key(#[trigger] ps[i].target_fd() as int)
                    &&& t2[ps[i].target_fd() as int] == t[ps[i].slave_fd() as int]
                    &&& !t2.contains_key(ps[i].master_fd() as int)
                    &&& ps[i].slave_fd() != ps[i].target_fd() ==> !t2.contains_key(
                        ps[i].slave_fd() as int,
                    )
                }
            &&& forall|f: int|
                !touched_by(ps, f) && s.pty_master() != Some(f as i32) ==> (
                #[trigger] t2.contains_key(f) == t.contains_key(f) && (t.contains_key(f) ==> t2[f]
                    == t[f]))
        }),
{
    let ps = s.plumbings();
    let pre = seq![ChildStep::NewSession] + s.pty_steps();
    let install = install_all(ps);
    let post = seq![ChildStep::RunAction];
    assert(s.child_steps() == (pre + install) + post);
    lemma_run_steps_append(t, pre + install, post, false);
    lemma_run_steps_append(t, pre, install, false);
    // The steps before the installation release the pty master, if any.
    let t1 = match s.pty_master() {
        Some(m) => t.remove(m as int),
        None => t,
    };
    assert(step_table(t, ChildStep::NewSession, false) == (t, false));
    match s.pty {
        Some(p) => {
            assert(pre =~= seq![
                ChildStep::NewSession,
                ChildStep::Release(p.master),
                ChildStep::OpenTerminal(p.slave_name),
            ]);
            let p1 = pre.drop_first();
            let p2 = p1.drop_first();
            let p3 = p2.drop_first();
            assert(p3 =~= Seq::<ChildStep>::empty());
            assert(run_steps(t1, p3, false) == (t1, false));
            assert(p2[0] == ChildStep::OpenTerminal(p.slave_name));
            assert(step_table(t1, p2[0], false) == (t1, false));
            assert(run_steps(t1, p2, false) == (t1, false));
            assert(p1[0] == ChildStep::Release(p.master));
            assert(step_table(t, p1[0], false) == (t1, false));
            assert(run_steps(t, p1, false) == (t1, false));
        },
        None => {
            assert(pre =~= seq![ChildStep::NewSession]);
            assert(pre.drop_first() =~= Seq::<ChildStep>::empty());
            assert(run_steps(t, pre.drop_first(), false) == (t, false));
        },
    }
    assert(run_steps(t, pre, false) == (t1, false));
    assert(plumbings_apart(ps, t1)) by {
        assert forall|i: int| 0 <= i < ps.len() implies {
            &&& t1.contains_key(#[trigger] ps[i].master_fd() as int)
            &&& t1.contains_key(ps[i].slave_fd() as int)
            &&& ps[i].master_fd() != ps[i].slave_fd()
            &&& ps[i].target_fd() >= 0
        } by {
            assert(t.contains_key(ps[i].master_fd() as int));
            assert(pipe_fd(ps, ps[i].master_fd() as int));
            assert(pipe_fd(ps, ps[i].slave_fd() as int));
        }
    }
    lemma_install_all(ps, t1, false);
    let (t2, f2) = run_steps(t1, install, false);
    assert(post.drop_first() =~= Seq::<ChildStep>::empty());
    assert(run_steps(t2, post.drop_first(), false) == (t2, false));
    assert(post[0] == ChildStep::RunAction);
    assert(step_table(t2, ChildStep::RunAction, false) == (t2, false));
    assert(run_steps(t2, post, false) == (t2, false));
    assert(run_steps(t, s.child_steps(), false) == (t2, f2));
    if let Some(m) = s.pty_master() {
        assert(!touched_by(ps, m as int));
        assert(!t1.contains_key(m as int));
    }
    assert forall|i: int| 0 <= i < ps.len() implies {
        &&& t2.contains_key(#[trigger] ps[i].target_fd() as int)
        &&& t2[ps[i].target_fd() as int] == t[ps[i].slave_fd() as int]
        &&& !t2.contains_key(ps[i].master_fd() as int)
        &&& ps[i].slave_fd() != ps[i].target_fd() ==> !t2.contains_key(ps[i].slave_fd() as int)
    } by {
        assert(t2.contains_key(ps[i].target_fd() as int));
        assert(pipe_fd(ps, ps[i].slave_fd() as int));
        assert(t1[ps[i].slave_fd() as int] == t[ps[i].slave_fd() as int]);
    }
}

proof fn lemma_masters_index(ps: Seq<Plumbing>, k: int)
    requires
        0 <= k < ps.len(),
    ensures
        masters(ps).len() == ps.len(),
        masters(ps)[k] == ps[k].master_fd(),
    decreases ps.len(),
{
    let rest = ps.drop_last();
    if rest.len() > 0 {
        if k < ps.len() - 1 {
            lemma_masters_index(rest, k);
        } else {
            lemma_masters_index(rest, 0);
        }
    } else {
        assert(masters(rest) =~= Seq::<i32>::empty());
    }
}

proof fn lemma_plumbing_fds_index(ps: Seq<Plumbing>, k: int)
    requires
        0 <= k < ps.len(),
    ensures
        plumbing_fds(ps).len() == 2 * ps.len(),
        plumbing_fds(ps)[2 * k] == ps[k].master_fd(),
        plumbing_fds(ps)[2 * k + 1] == ps[k].slave_fd(),
    decreases ps.len(),
{
    let rest = ps.drop_last();
    if rest.len() > 0 {
        if k < ps.len() - 1 {
            lemma_plumbing_fds_index(rest, k);
        } else {
            lemma_plumbing_fds_index(rest, 0);
        }
    } else {
        assert(plumbing_fds(rest) =~= Seq::<i32>::empty());
    }
}

/// The parent keeps the master end of the i-th plumbing as its i-th pipe
/// and releases the i-th slave end as the i-th descriptor it releases.
pub proof fn lemma_parent_layout(ps: Seq<Plumbing>)
    ensures
        masters(ps).len() == ps.len(),
        slaves(ps).len() == ps.len(),
        forall|i: int| 0 <= i < ps.len() ==> #[trigger] masters(ps)[i] == ps[i].master_fd(),
        forall|i: int| 0 <= i < ps.len() ==> #[trigger] slaves(ps)[i] == ps[i].slave_fd(),
{
    if ps.len() > 0 {
        lemma_masters_index(ps, 0);
        lemma_slaves_index(ps, 0);
    } else {
        assert(masters(ps) =~= Seq::<i32>::empty());
        assert(slaves(ps) =~= Seq::<i32>::empty());
    }
    assert forall|i: int| 0 <= i < ps.len() implies #[trigger] masters(ps)[i] == ps[i].master_fd() by {
        lemma_masters_index(ps, i);
    }
    assert forall|i: int| 0 <= i < ps.len() implies #[trigger] slaves(ps)[i] == ps[i].slave_fd() by {
        lemma_slaves_index(ps, i);
    }
}

/// The descriptors a setup owns: the pty master first, if any, then the
/// master and the slave end of each plumbing in turn.
pub proof fn lemma_owned_fds_layout(s: PtyKnotSetup)
    ensures
        s.owned_fds().len() == opt_seq(s.pty_master()).len() + 2 * s.plumbings().len(),
        s.pty_master() matches Some(m) ==> s.owned_fds()[0] == m,
        forall|i: int|
            0 <= i < s.plumbings().len() ==> s.owned_fds()[opt_seq(s.pty_master()).len() + 2 * i]
                == #[trigger] s.plumbings()[i].master_fd() && s.owned_fds()[opt_seq(
                s.pty_master(),
            ).len() + 2 * i + 1] == s.plumbings()[i].slave_fd(),
{
    let ps = s.plumbings();
    let o = opt_seq(s.pty_master());
    if ps.len() > 0 {
        lemma_plumbing_fds_index(ps, 0);
    } else {
        assert(plumbing_fds(ps) =~= Seq::<i32>::empty());
    }
    assert forall|i: int| 0 <= i < ps.len() implies s.owned_fds()[o.len() + 2 * i]
        == #[trigger] ps[i].master_fd() && s.owned_fds()[o.len() + 2 * i + 1] == ps[i].slave_fd() by {
        lemma_plumbing_fds_index(ps, i);
    }
}

/// Installing two runs of plumbings is installing the first run, then the
/// second.
pub proof fn lemma_install_all_concat(a: Seq<Plumbing>, b: Seq<Plumbing>)
    ensures
        install_all(a + b) == install_all(a) + install_all(b),
    decreases b.len(),
{
    if b.len() == 0 {
        assert(a + b =~= a);
        assert(install_all(a) + install_all(b) =~= install_all(a));
    } else {
        assert((a + b).drop_last() =~= a + b.drop_last());
        assert((a + b).last() == b.last());
        lemma_install_all_concat(a, b.drop_last());
        assert(install_all(a) + install_all(b) =~= install_all(a) + install_all(b.drop_last())
            + b.last().install_steps());
    }
}

/// The child installs the plumbings in the order they were added: the
/// steps of the i-th plumbing come after those of every earlier one and
/// before those of every later one.
pub proof fn lemma_install_all_in_order(ps: Seq<Plumbing>, i: int)
    requires
        0 <= i < ps.len(),
    ensures
        install_all(ps) == install_all(ps.take(i)) + ps[i].install_steps() + install_all(
            ps.skip(i + 1),
        ),
{
    let one = seq![ps[i]];
    assert(ps =~= ps.take(i) + one + ps.skip(i + 1));
    lemma_install_all_concat(ps.take(i) + one, ps.skip(i + 1));
    lemma_install_all_concat(ps.take(i), one);
    assert(one.drop_last() =~= Seq::<Plumbing>::empty());
    assert(install_all(Seq::<Plumbing>::empty()) == Seq::<ChildStep>::empty());
    assert(install_all(one) =~= ps[i].install_steps());
}

} // verus!
