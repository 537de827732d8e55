//! Child process and pty support.
//!
//! Start a child process running a specified action. The process may have a
//! new pseudo-tty as its controlling terminal, and may have pipes to the
//! master for some of its file descriptors. This crate holds the decisions
//! of that process: which pipe end each side keeps, which descriptors each
//! side closes or installs, how system call results and child statuses are
//! read, and how pseudo-terminal slave names are formed.

pub mod fd;
pub mod sys;
pub mod pty;
pub mod child;
pub mod knot;

pub use child::{ChildAction, ChildRun, ChildStep};
pub use fd::{pty_stderr, pty_stdin, pty_stdout, StdFd};
pub use knot::{ParentHandles, PipeDirection, Plumbing, PtyKnot, PtyKnotSetup, Spawned};
pub use sys::SysError;
