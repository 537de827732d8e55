//! Names of pseudo-terminal slaves.
//!
//! A slave name is kept as the bytes of its path, as the system hands it
//! over.

use vstd::prelude::*;
use vstd::utf8::valid_utf8;

use crate::sys::{check, SysError};

verus! {

/// `std::str::from_utf8`: succeeds exactly on the byte sequences that are
/// valid UTF-8 (the documented behaviour of the function).
#[verifier::external_body]
fn is_utf8(bytes: &[u8]) -> (r: bool)
    ensures
        r == valid_utf8(bytes@),
{
    std::str::from_utf8(bytes).is_ok()
}

/// What `ptsname` makes of the C library's answer: `None` (a null pointer)
/// is the error in `errno`; a name that is not valid UTF-8 is refused as
/// invalid data; any other name is the slave's path.
pub open spec fn spec_ptsname(c_name: Option<Seq<u8>>, errno: i32) -> Result<Seq<u8>, SysError> {
    match c_name {
        None => Err(SysError::Os(errno)),
        Some(name) => if valid_utf8(name) {
            Ok(name)
        } else {
            Err(SysError::InvalidData)
        },
    }
}

/// Returns the path of the slave pty associated with a master, from the
/// bytes of the C string that `ptsname(3)` returned for it (`None` for a
/// null pointer) and the `errno` observed right after that call.
pub fn ptsname(c_name: Option<Vec<u8>>, errno: i32) -> (r: Result<Vec<u8>, SysError>)
    ensures
        r matches Ok(path) ==> spec_ptsname(
            match c_name {
                Some(v) => Some(v@),
                None => None,
            },
            errno,
        ) == Ok::<Seq<u8>, SysError>(path@),
        r matches Err(e) ==> spec_ptsname(
            match c_name {
                Some(v) => Some(v@),
                None => None,
            },
            errno,
        ) == Err::<Seq<u8>, SysError>(e),
        c_name is None ==> r == Err::<Vec<u8>, SysError>(SysError::Os(errno)),
        c_name matches Some(name) ==> (valid_utf8(name@) ==> (r matches Ok(path) && path@
            == name@)),
        c_name matches Some(name) ==> (!valid_utf8(name@) ==> r == Err::<Vec<u8>, SysError>(
            SysError::InvalidData,
        )),
{
    match c_name {
        None => Err(SysError::Os(errno)),
        Some(name) => {
            if is_utf8(name.as_slice()) {
                Ok(name)
            } else {
                Err(SysError::InvalidData)
            }
        },
    }
}

/// The result of `pipe(2)`: on success the two new descriptors, the read
/// end first and the write end second; on failure (`-1`) the error in
/// `errno`.
pub fn pipe(ret: i32, pipefds: [i32; 2], errno: i32) -> (r: Result<[i32; 2], SysError>)
    ensures
        ret == -1 ==> r == Err::<[i32; 2], SysError>(SysError::Os(errno)),
        ret != -1 ==> r == Ok::<[i32; 2], SysError>(pipefds),
{
    match check(ret, errno) {
        Err(e) => Err(e),
        Ok(_) => Ok(pipefds),
    }
}

/// The result of a blocking `waitpid(2)`: on success the child's status
/// word; on failure (`-1`) the error in `errno`.
pub fn waitpid(ret: i32, status: i32, errno: i32) -> (r: Result<i32, SysError>)
    ensures
        ret == -1 ==> r == Err::<i32, SysError>(SysError::Os(errno)),
        ret != -1 ==> r == Ok::<i32, SysError>(status),
{
    match check(ret, errno) {
        Err(e) => Err(e),
        Ok(_) => Ok(status),
    }
}

/// The slave's path is the C library's name byte for byte whenever that
/// name is valid UTF-8; a null answer is the error in `errno`, and a name
/// that is not valid UTF-8 is invalid data.
pub proof fn lemma_ptsname_keeps_name(name: Seq<u8>, errno: i32)
    ensures
        valid_utf8(name) ==> spec_ptsname(Some(name), errno) == Ok::<Seq<u8>, SysError>(name),
        !valid_utf8(name) ==> spec_ptsname(Some(name), errno) == Err::<Seq<u8>, SysError>(
            SysError::InvalidData,
        ),
        spec_ptsname(None, errno) == Err::<Seq<u8>, SysError>(SysError::Os(errno)),
{
}

/// The ASCII decimal digits of `n`, most significant first, with no
/// leading zero.
pub open spec fn decimal(n: nat) -> Seq<u8>
    decreases n,
{
    if n < 10 {
        seq![(48 + n) as u8]
    } else {
        decimal(n / 10).push((48 + n % 10) as u8)
    }
}

/// The number that a sequence of ASCII decimal digits denotes.
pub open spec fn digits_value(s: Seq<u8>) -> int
    decreases s.len(),
{
    if s.len() == 0 {
        0
    } else {
        digits_value(s.drop_last()) * 10 + (s.last() - 48)
    }
}

/// The directory of the Linux pseudo-terminal slaves, `/dev/pts/`.
pub open spec fn pts_dir() -> Seq<u8> {
    seq![47u8, 100u8, 101u8, 118u8, 47u8, 112u8, 116u8, 115u8, 47u8]
}

/// The path of the slave with the given index: `/dev/pts/` and the index
/// in decimal.
pub open spec fn spec_pts_path(index: u32) -> Seq<u8> {
    pts_dir() + decimal(index as nat)
}

fn push_decimal(out: &mut Vec<u8>, n: u32)
    ensures
        final(out)@ == old(out)@ + decimal(n as nat),
    decreases n,
{
    if n >= 10 {
        push_decimal(out, n / 10);
    }
    let digit: u8 = (n % 10) as u8;
    out.push(48 + digit);
    proof {
        if n < 10 {
            assert(decimal(n as nat) =~= seq![(48 + n) as u8]);
        } else {
            assert(decimal(n as nat) == decimal((n / 10) as nat).push((48 + n % 10) as u8));
        }
    }
}

/// The path of the pseudo-terminal slave whose index the `TIOCGPTN` ioctl
/// reported for a master.
pub fn pts_path(index: u32) -> (path: Vec<u8>)
    ensures
        path@ == spec_pts_path(index),
        path@.len() >= 10,
        path@.subrange(0, 9) == seq![47u8, 100u8, 101u8, 118u8, 47u8, 112u8, 116u8, 115u8, 47u8],
        forall|i: int| 9 <= i < path@.len() ==> 48 <= #[trigger] path@[i] <= 57,
        index > 0 ==> path@[9] != 48,
        digits_value(path@.subrange(9, path@.len() as int)) == index,
{
    let mut path: Vec<u8> = vec![47u8, 100u8, 101u8, 118u8, 47u8, 112u8, 116u8, 115u8, 47u8];
    assert(path@ =~= pts_dir());
    push_decimal(&mut path, index);
    proof {
        lemma_decimal_round_trip(index as nat);
        assert(path@.subrange(9, path@.len() as int) =~= decimal(index as nat));
        assert(path@.subrange(0, 9) =~= pts_dir());
        assert forall|i: int| 9 <= i < path@.len() implies 48 <= #[trigger] path@[i] <= 57 by {
            assert(path@[i] == decimal(index as nat)[i - 9]);
        }
        assert(path@[9] == decimal(index as nat)[0]);
    }
    path
}

/// The decimal form of a number is made of ASCII digits, has no leading
/// zero, and denotes the number again.
pub proof fn lemma_decimal_round_trip(n: nat)
    ensures
        decimal(n).len() >= 1,
        forall|i: int| 0 <= i < decimal(n).len() ==> 48 <= #[trigger] decimal(n)[i] <= 57,
        n > 0 ==> decimal(n)[0] != 48,
        digits_value(decimal(n)) == n,
    decreases n,
{
    let s = decimal(n);
    if n < 10 {
        assert(s.drop_last() =~= Seq::<u8>::empty());
        assert(s.last() == 48 + n);
        assert(digits_value(s.drop_last()) == 0);
    } else {
        lemma_decimal_round_trip(n / 10);
        assert(s.drop_last() =~= decimal(n / 10));
        assert(s.last() == 48 + n % 10);
        assert(digits_value(s) == digits_value(decimal(n / 10)) * 10 + n % 10);
        assert(n == (n / 10) * 10 + n % 10);
        assert forall|i: int| 0 <= i < s.len() implies 48 <= #[trigger] s[i] <= 57 by {
            if i < s.len() - 1 {
                assert(s[i] == decimal(n / 10)[i]);
            }
        }
        assert(s[0] == decimal(n / 10)[0]);
    }
}

/// Different slave indices give different slave paths, and the index can
/// be read back from the path.
pub proof fn lemma_pts_path_injective(a: u32, b: u32)
    ensures
        spec_pts_path(a) == spec_pts_path(b) ==> a == b,
        spec_pts_path(a).subrange(0, 9) == pts_dir(),
        digits_value(spec_pts_path(a).subrange(9, spec_pts_path(a).len() as int)) == a,
{
    lemma_decimal_round_trip(a as nat);
    lemma_decimal_round_trip(b as nat);
    assert(spec_pts_path(a).subrange(0, 9) =~= pts_dir());
    assert(spec_pts_path(a).subrange(9, spec_pts_path(a).len() as int) =~= decimal(a as nat));
    assert(spec_pts_path(b).subrange(9, spec_pts_path(b).len() as int) =~= decimal(b as nat));
}

} // verus!
