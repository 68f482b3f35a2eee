//! The checks that decide whether the tokenizer can be registered with a
//! database library, and with which status registration fails.

use vstd::prelude::*;

verus! {

/// Status of a call that succeeded.
pub const SQLITE_OK: i32 = 0;

/// Status for a fault inside the database library.
pub const SQLITE_INTERNAL: i32 = 2;

/// Status for a library that is used in a way it does not support.
pub const SQLITE_MISUSE: i32 = 21;

/// The version of the full-text-search interface that the tokenizer is
/// written for.
pub const FTS5_API_VERSION: i32 = 2;

/// The oldest library version that offers the pointer-passing interface.
pub const MIN_LIBRARY_VERSION: i32 = 302000;

/// Accepts a library of at least the oldest supported version, and reports
/// misuse for one that is older.
pub fn check_library_version(version: i32) -> (checked: Result<(), i32>)
    ensures
        checked == if version < MIN_LIBRARY_VERSION {
            Err::<(), i32>(SQLITE_MISUSE)
        } else {
            Ok::<(), i32>(())
        },
{
    if version < MIN_LIBRARY_VERSION {
        Err(SQLITE_MISUSE)
    } else {
        Ok(())
    }
}

/// Turns the status of a call into a result: every status but success is
/// the error.
pub fn check_status(status: i32) -> (checked: Result<(), i32>)
    ensures
        checked == if status == SQLITE_OK {
            Ok::<(), i32>(())
        } else {
            Err::<(), i32>(status)
        },
{
    if status == SQLITE_OK {
        Ok(())
    } else {
        Err(status)
    }
}

/// Accepts the full-text-search interface if the library handed one out
/// and it has the version that the tokenizer is written for. A missing
/// interface is an internal fault, another version is misuse.
pub fn check_api_version(version: Option<i32>) -> (checked: Result<(), i32>)
    ensures
        checked == match version {
            None => Err::<(), i32>(SQLITE_INTERNAL),
            Some(v) => if v == FTS5_API_VERSION {
                Ok::<(), i32>(())
            } else {
                Err::<(), i32>(SQLITE_MISUSE)
            },
        },
{
    match version {
        None => Err(SQLITE_INTERNAL),
        Some(v) => {
            if v == FTS5_API_VERSION {
                Ok(())
            } else {
                Err(SQLITE_MISUSE)
            }
        },
    }
}

} // verus!
