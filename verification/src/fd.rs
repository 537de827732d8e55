//! File descriptors, the standard descriptor targets, and a model of a
//! process descriptor table together with the operations that the library
//! performs on it.

use vstd::prelude::*;

verus! {

/// Represents a standard file descriptor to be overwritten
/// in the child process.
#[derive(Copy, Clone, Debug)]
pub struct StdFd(i32);

impl View for StdFd {
    type V = i32;

    closed spec fn view(&self) -> i32 {
        self.0
    }
}

impl StdFd {
    /// Get the underlying raw file descriptor.
    pub fn as_raw_fd(&self) -> (fd: i32)
        ensures
            fd == self@,
    {
        self.0
    }
}

/// Stdin target for the pty-side interface.
pub fn pty_stdin() -> (fd: StdFd)
    ensures
        fd@ == 0,
{
    StdFd(0)
}

/// Stdout target for the pty-side interface.
pub fn pty_stdout() -> (fd: StdFd)
    ensures
        fd@ == 1,
{
    StdFd(1)
}

/// Stderr target for the pty-side interface.
pub fn pty_stderr() -> (fd: StdFd)
    ensures
        fd@ == 2,
{
    StdFd(2)
}

/// A descriptor table: each open descriptor number is mapped to the open
/// file description it refers to.
pub type FdTable = Map<int, int>;

/// The table after each descriptor of `fds` is released, in order.
/// Releasing is what dropping an owner does: the descriptor is closed, and
/// a failure to close it is ignored, so releasing never fails.
pub open spec fn release_all(t: FdTable, fds: Seq<i32>) -> FdTable
    decreases fds.len(),
{
    if fds.len() == 0 {
        t
    } else {
        release_all(t, fds.drop_last()).remove(fds.last() as int)
    }
}

/// Releasing a sequence of descriptors closes exactly those descriptors
/// and leaves every other one as it was.
pub proof fn lemma_release_all(t: FdTable, fds: Seq<i32>)
    ensures
        forall|f: int|
            #[trigger] release_all(t, fds).contains_key(f) == (t.contains_key(f) && !(exists|i: int|
                0 <= i < fds.len() && fds[i] as int == f)),
        forall|f: int| #[trigger] release_all(t, fds).contains_key(f) ==> release_all(t, fds)[f] == t[f],
    decreases fds.len(),
{
    if fds.len() > 0 {
        let rest = fds.drop_last();
        lemma_release_all(t, rest);
        assert(release_all(t, fds) == release_all(t, rest).remove(fds.last() as int));
        assert forall|f: int|
            #[trigger] release_all(t, fds).contains_key(f) == (t.contains_key(f) && !(exists|i: int|
                0 <= i < fds.len() && fds[i] as int == f)) by {
            if f == fds.last() as int {
                assert(fds[fds.len() - 1] as int == f);
            }
            if exists|i: int| 0 <= i < fds.len() && fds[i] as int == f {
                let i = choose|i: int| 0 <= i < fds.len() && fds[i] as int == f;
                if i < fds.len() - 1 {
                    assert(rest[i] == fds[i]);
                }
            }
            if exists|i: int| 0 <= i < rest.len() && rest[i] as int == f {
                let i = choose|i: int| 0 <= i < rest.len() && rest[i] as int == f;
                assert(fds[i] == rest[i]);
            }
        }
    }
}

} // verus!
