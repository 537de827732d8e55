use ptyknot::pty::{pipe, ptsname, pts_path, waitpid};
use ptyknot::sys::{check, check_zero, child_exit_status, exit_code, exit_success, SysError};

#[test]
fn check_reads_minus_one_as_errno() {
    assert_eq!(check(-1, 9), Err(SysError::Os(9)));
    assert_eq!(check(0, 9), Ok(0));
    assert_eq!(check(17, 9), Ok(17));
}

#[test]
fn check_zero_reads_nonzero_as_errno() {
    assert_eq!(check_zero(0, 25), Ok(()));
    assert_eq!(check_zero(-1, 25), Err(SysError::Os(25)));
    assert_eq!(check_zero(1, 25), Err(SysError::Os(25)));
}

#[test]
fn pipe_and_waitpid_results() {
    assert_eq!(pipe(0, [3, 4], 0), Ok([3, 4]));
    assert_eq!(pipe(-1, [0, 0], 24), Err(SysError::Os(24)));
    assert_eq!(waitpid(1234, 256, 0), Ok(256));
    assert_eq!(waitpid(-1, 0, 10), Err(SysError::Os(10)));
}

#[test]
fn child_statuses() {
    assert_eq!(child_exit_status(true), 0);
    assert_eq!(child_exit_status(false), 101);
}

#[test]
fn exit_codes_round_trip() {
    // The status word of `_exit(code)` is `W_EXITCODE(code, 0)`.
    for code in [0, 1, 101, 255] {
        let status = libc::W_EXITCODE(code, 0);
        assert_eq!(exit_code(status), Some(code));
        assert_eq!(exit_success(status), code == 0);
    }
    assert_eq!(exit_code(0x6500), Some(101));
}

#[test]
fn signalled_child_has_no_exit_code() {
    // Killed by SIGKILL (9) and by SIGSEGV with a core dump (11 | 0x80).
    assert_eq!(exit_code(9), None);
    assert_eq!(exit_code(11 | 0x80), None);
    assert!(!exit_success(9));
}

#[test]
fn ptsname_results() {
    assert_eq!(ptsname(None, 25), Err(SysError::Os(25)));
    assert_eq!(ptsname(Some(b"/dev/pts/4".to_vec()), 0), Ok(b"/dev/pts/4".to_vec()));
    assert_eq!(ptsname(Some(vec![0x2f, 0xff, 0xfe]), 0), Err(SysError::InvalidData));
    assert_eq!(
        ptsname(Some("/dev/pts/\u{e9}".as_bytes().to_vec()), 0),
        Ok("/dev/pts/\u{e9}".as_bytes().to_vec())
    );
}

#[test]
fn pts_paths() {
    assert_eq!(pts_path(0), b"/dev/pts/0".to_vec());
    assert_eq!(pts_path(7), b"/dev/pts/7".to_vec());
    assert_eq!(pts_path(12), b"/dev/pts/12".to_vec());
    assert_eq!(pts_path(100), b"/dev/pts/100".to_vec());
    assert_eq!(pts_path(u32::MAX), b"/dev/pts/4294967295".to_vec());
}

#[test]
fn pts_path_matches_decimal_formatting() {
    for index in [1u32, 9, 10, 99, 1000, 65535, 123456789] {
        assert_eq!(pts_path(index), format!("/dev/pts/{}", index).into_bytes());
    }
}
