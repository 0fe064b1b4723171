//! Settings that an editor hands to the language server.
use vstd::prelude::*;

verus! {

/// How long, in milliseconds, the server waits after an edit before it
/// lints, when the editor does not say.
pub const DEFAULT_DEBOUNCE_MS: u64 = 300;

/// The wait after an edit, from the editor's `lintDebounceMs` setting read
/// as an unsigned number (`unsigned`) and as a signed one (`signed`): the
/// unsigned reading where there is one, else the signed one taken as its
/// 64-bit pattern, else [`DEFAULT_DEBOUNCE_MS`].
pub open spec fn debounce_setting(unsigned: Option<u64>, signed: Option<i64>) -> u64 {
    match unsigned {
        Some(n) => n,
        None => match signed {
            Some(n) => n as u64,
            None => DEFAULT_DEBOUNCE_MS,
        },
    }
}

/// The wait after an edit, in milliseconds, from the editor's setting.
pub fn debounce_ms(unsigned: Option<u64>, signed: Option<i64>) -> (r: u64)
    ensures
        r == debounce_setting(unsigned, signed),
{
    match unsigned {
        Some(n) => n,
        None => match signed {
            Some(n) => #[verifier::truncate] (n as u64),
            None => DEFAULT_DEBOUNCE_MS,
        },
    }
}

} // verus!
