//! Reading the results of the system calls the library makes, and the
//! status word that `waitpid` reports for a child.

use vstd::prelude::*;

verus! {

/// Why a system-level step failed.
#[derive(Copy, Clone, Debug, PartialEq, Eq, Structural)]
pub enum SysError {
    /// The call failed with the given `errno` value.
    Os(i32),
    /// The call succeeded but handed back data that is not valid UTF-8.
    InvalidData,
}

/// Interprets the return value of a call that signals failure with `-1`
/// (`grantpt`, `unlockpt`, `dup2`, `close`, `pipe`, `waitpid`, `fork`):
/// `errno` is the error number observed right after the call.
pub fn check(ret: i32, errno: i32) -> (r: Result<i32, SysError>)
    ensures
        ret == -1 ==> r == Err::<i32, SysError>(SysError::Os(errno)),
        ret != -1 ==> r == Ok::<i32, SysError>(ret),
{
    if ret == -1 {
        Err(SysError::Os(errno))
    } else {
        Ok(ret)
    }
}

/// Interprets the return value of a call that signals success with `0`
/// and failure with anything else (`ioctl`, and `grantpt`/`unlockpt` as
/// the stand-alone pty demonstration reads them).
pub fn check_zero(ret: i32, errno: i32) -> (r: Result<(), SysError>)
    ensures
        ret == 0 ==> r == Ok::<(), SysError>(()),
        ret != 0 ==> r == Err::<(), SysError>(SysError::Os(errno)),
{
    if ret == 0 {
        Ok(())
    } else {
        Err(SysError::Os(errno))
    }
}

/// `WIFEXITED`: the status word reports a normal exit.
pub open spec fn spec_exited(status: i32) -> bool {
    status & 0x7f == 0
}

/// `WEXITSTATUS`: the exit code carried by the status word.
pub open spec fn spec_exit_status(status: i32) -> i32 {
    (status >> 8) & 0xff
}

/// `libc::WIFEXITED` on Linux: true exactly when the low seven bits of the
/// status word are zero.
#[verifier::external_body]
fn wifexited(status: i32) -> (r: bool)
    ensures
        r == spec_exited(status),
{
    libc::WIFEXITED(status)
}

/// `libc::WEXITSTATUS` on Linux: bits eight to fifteen of the status word.
#[verifier::external_body]
fn wexitstatus(status: i32) -> (r: i32)
    ensures
        r == spec_exit_status(status),
{
    libc::WEXITSTATUS(status)
}

/// The exit code of a child whose `waitpid` status word is `status`, if it
/// exited normally (`None` where a signal ended it).
pub open spec fn spec_exit_code(status: i32) -> Option<i32> {
    if spec_exited(status) {
        Some(spec_exit_status(status))
    } else {
        None
    }
}

/// The exit code of a child whose `waitpid` status word is `status`, if it
/// exited normally.
pub fn exit_code(status: i32) -> (r: Option<i32>)
    ensures
        r == spec_exit_code(status),
        status & 0x7f != 0 ==> r.is_none(),
        status & 0x7f == 0 ==> r == Some((status >> 8) & 0xff),
{
    if wifexited(status) {
        Some(wexitstatus(status))
    } else {
        None
    }
}

/// Whether a child whose `waitpid` status word is `status` exited normally
/// with code zero.
pub fn exit_success(status: i32) -> (r: bool)
    ensures
        r == (spec_exit_code(status) == Some(0i32)),
        r == (status & 0x7f == 0 && (status >> 8) & 0xff == 0),
{
    match exit_code(status) {
        Some(code) => code == 0,
        None => false,
    }
}

/// A child ended by a signal (the low seven bits of its status word are not
/// zero) has no exit code and is not a success; a child that exited
/// normally has the exit code held in bits eight to fifteen, and is a
/// success exactly when that code is zero.
pub proof fn lemma_exit_code_bits(status: i32)
    ensures
        status & 0x7f != 0 ==> spec_exit_code(status).is_none() && spec_exit_code(status) != Some(
            0i32,
        ),
        spec_exit_code(status) matches Some(c) ==> status & 0x7f == 0 && c == (status >> 8) & 0xff,
        status & 0x7f == 0 ==> spec_exit_code(status) == Some((status >> 8) & 0xff),
        (spec_exit_code(status) == Some(0i32)) == (status & 0x7f == 0 && (status >> 8) & 0xff
            == 0),
{
}

/// The exit code with which a child finishes: zero when its action returned,
/// 101 (Rust's panic status) when the action or the child's setup panicked.
pub open spec fn spec_child_exit_status(completed: bool) -> i32 {
    if completed {
        0
    } else {
        101
    }
}

/// The exit code with which a child finishes, given whether its setup and
/// action completed without a panic.
pub fn child_exit_status(completed: bool) -> (status: i32)
    ensures
        status == spec_child_exit_status(completed),
        completed ==> status == 0,
        !completed ==> status == 101,
{
    if completed {
        0
    } else {
        101
    }
}

/// The status word that `waitpid` reports for a child that called
/// `_exit(code)` with `0 <= code <= 255` (`W_EXITCODE(code, 0)`).
pub open spec fn spec_exited_with(code: i32) -> i32 {
    code << 8
}

/// A code in `0..=255` passed to `_exit` is read back unchanged by
/// `exit_code` from the status word of the exit.
pub proof fn lemma_exit_code_round_trip(code: i32)
    requires
        0 <= code <= 255,
    ensures
        spec_exit_code(spec_exited_with(code)) == Some(code),
{
    assert((code << 8) & 0x7f == 0 && ((code << 8) >> 8) & 0xff == code) by (bit_vector)
        requires
            0 <= code <= 255,
    ;
}

/// The parent reads back the status the child chose: code zero (a success)
/// when the child's action returned, code 101 when it panicked.
pub proof fn lemma_child_status_observed(completed: bool)
    ensures
        spec_exit_code(spec_exited_with(spec_child_exit_status(completed))) == Some(
            spec_child_exit_status(completed),
        ),
        (spec_exit_code(spec_exited_with(spec_child_exit_status(completed))) == Some(0i32))
            == completed,
{
    lemma_exit_code_round_trip(spec_child_exit_status(completed));
}

} // verus!
