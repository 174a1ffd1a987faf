//! Errors as OS error codes, and their flattening into one signed integer.
use vstd::prelude::*;

verus! {

/// "No such file or directory".
pub const ENOENT: i32 = 2;

/// "Invalid argument".
pub const EINVAL: i32 = 22;

/// A failure, carried as an errno value.
#[derive(Clone, Copy, Debug, PartialEq, Eq)]
pub struct Errno {
    pub errno: i32,
}

impl Errno {
    /// The failure for a controller file that no cgroup up to the root provides.
    pub open spec fn spec_not_found() -> Errno {
        Errno { errno: ENOENT }
    }

    /// The failure for malformed or nonsensical input.
    pub open spec fn spec_invalid() -> Errno {
        Errno { errno: EINVAL }
    }

    pub fn not_found() -> (r: Errno)
        ensures
            r == Errno::spec_not_found(),
    {
        Errno { errno: ENOENT }
    }

    pub fn invalid() -> (r: Errno)
        ensures
            r == Errno::spec_invalid(),
    {
        Errno { errno: EINVAL }
    }

    /// The failure for a read that failed with the given OS error code, if any.
    /// Without a positive code it is an invalid-argument failure.
    pub fn from_os_error(code: Option<i32>) -> (r: Errno)
        ensures
            r.errno == match code {
                Some(c) => if c > 0 {
                    c
                } else {
                    EINVAL
                },
                None => EINVAL,
            },
            r.errno > 0,
    {
        match code {
            Some(c) => if c > 0 {
                Errno { errno: c }
            } else {
                Errno::invalid()
            },
            None => Errno::invalid(),
        }
    }
}

/// A count as itself, a failure as its negated error code.
pub open spec fn spec_flatten(r: Result<i32, Errno>) -> int {
    match r {
        Ok(i) => i as int,
        Err(e) => -(e.errno as int),
    }
}

/// Flattens an outcome into one integer: a count stays as it is, a failure becomes its
/// negated error code.
pub fn flatten_result(r: Result<i32, Errno>) -> (out: i32)
    requires
        r is Err ==> r->Err_0.errno > 0,
    ensures
        out as int == spec_flatten(r),
{
    match r {
        Ok(i) => i,
        Err(e) => -e.errno,
    }
}

} // verus!
