//! The three error codes of the allocator, and their fixed messages.
//!
//! Every failure is an ordinary result value, never a crash: callers inspect
//! the code and may retry or re-acquire.

use vstd::prelude::*;

verus! {

/// The pool is exhausted: no identifier is available to lease.
pub const ERROR_CODE_NO_ID_AVAILBLE: usize = 1;

/// The lease on the identifier had already lapsed; it has been reclaimed.
pub const ERROR_CODE_ID_EXPIRED: usize = 2;

/// The identifier is not currently leased: never issued, already reclaimed,
/// or out of range.
pub const ERROR_CODE_ID_NONEXISTENT: usize = 3;

/// The fixed message for each error code, and `None` for any other value.
pub fn error_code_msg(code: usize) -> (msg: Option<&'static str>)
    ensures
        code == ERROR_CODE_NO_ID_AVAILBLE ==> (msg matches Some(m) && m@ == "No id available!"@),
        code == ERROR_CODE_ID_EXPIRED ==> (msg matches Some(m) && m@ == "Id expired!"@),
        code == ERROR_CODE_ID_NONEXISTENT ==> (msg matches Some(m) && m@ == "Id nonexistent!"@),
        msg is Some <==> (code == ERROR_CODE_NO_ID_AVAILBLE || code == ERROR_CODE_ID_EXPIRED
            || code == ERROR_CODE_ID_NONEXISTENT),
{
    if code == ERROR_CODE_NO_ID_AVAILBLE {
        Some("No id available!")
    } else if code == ERROR_CODE_ID_EXPIRED {
        Some("Id expired!")
    } else if code == ERROR_CODE_ID_NONEXISTENT {
        Some("Id nonexistent!")
    } else {
        None
    }
}

} // verus!
