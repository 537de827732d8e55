# ptyknot

Run an action in a child process, optionally on a new pseudo-terminal and
with pipes attached to some of its standard descriptors.

- `src/` is the verified library. It holds every decision of the process:
  which end of a pipe the parent keeps (`knot::Plumbing::new`), what the
  child closes and installs and what the parent keeps and closes when the
  setup is divided at the fork (`knot::PtyKnotSetup::spawn`), the order of
  the child's steps and what it does once one of them fails (`child`), how
  system call results and child status words are read (`sys`), and how
  slave names are formed and checked (`pty`). `fd` and `child` model a
  descriptor table, and the proof functions in `knot` state what the
  planned steps do to it.
- `app/` performs the system calls (`fork`, `pipe`, `dup2`, `close`,
  `setsid`, `_exit`, `waitpid`, `grantpt`, `unlockpt`, `ptsname`, `ioctl`),
  owns the descriptors as `File`s, and offers the `ptyknot!` macro.
- `tests/` exercises the library's functions on concrete values.
