use vstd::prelude::*;

verus! {

/// The kinds of failure that the library reports.
#[derive(Debug, Clone, Copy, PartialEq, Eq, Structural)]
pub enum GodataErrorType {
    NotFound,
    AlreadyExists,
    InvalidPath,
    NotPermitted,
    IOError,
    InternalError,
}

/// A failure: its kind, which callers dispatch on, and a message for people.
#[derive(Debug)]
pub struct GodataError {
    pub error_type: GodataErrorType,
    pub message: String,
}

impl GodataError {
    pub fn new(error_type: GodataErrorType, message: String) -> (r: GodataError)
        ensures
            r.error_type == error_type,
            r.message@ == message@,
    {
        GodataError { error_type, message }
    }

    pub fn kind(&self) -> (r: GodataErrorType)
        ensures
            r == self.error_type,
    {
        self.error_type
    }
}

/// True when `r` failed with the given kind.
pub open spec fn fails_with<T>(r: Result<T, GodataError>, k: GodataErrorType) -> bool {
    r is Err && r->Err_0.error_type == k
}

} // verus!
