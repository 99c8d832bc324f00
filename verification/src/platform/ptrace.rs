//! The errors of the lock that stops a target by tracing it.

use vstd::prelude::*;
use crate::memory::lock::LockError;
use crate::memory::lock::UnlockError;

verus! {

/// The step of the tracing lock that failed, with the platform's error
/// code.
#[derive(Debug, Copy, Clone, PartialEq, Eq, Structural)]
pub enum PtraceLockError {
    /// Attaching to the target failed.
    PtraceAttach(i32),
    /// Stopping the target failed.
    StopError(i32),
    /// Letting the target run failed.
    PtraceCont(i32),
    /// Detaching from the target failed.
    PtraceDetach(i32),
    /// Waiting for the target to stop failed.
    WaitpidError(i32),
}

impl PtraceLockError {
    /// The platform's error code.
    pub open spec fn code_spec(self) -> i32 {
        match self {
            PtraceLockError::PtraceAttach(code) => code,
            PtraceLockError::StopError(code) => code,
            PtraceLockError::PtraceCont(code) => code,
            PtraceLockError::PtraceDetach(code) => code,
            PtraceLockError::WaitpidError(code) => code,
        }
    }

    pub fn code(&self) -> (r: i32)
        ensures
            r == self.code_spec(),
    {
        match self {
            PtraceLockError::PtraceAttach(code) => *code,
            PtraceLockError::StopError(code) => *code,
            PtraceLockError::PtraceCont(code) => *code,
            PtraceLockError::PtraceDetach(code) => *code,
            PtraceLockError::WaitpidError(code) => *code,
        }
    }

    /// The error as `lock` reports it: a platform error with the same code.
    pub fn into_lock_error(self) -> (r: LockError)
        ensures
            r == LockError::PlatformError(self.code_spec()),
    {
        LockError::PlatformError(self.code())
    }

    /// The error as `unlock` reports it: a platform error with the same
    /// code.
    pub fn into_unlock_error(self) -> (r: UnlockError)
        ensures
            r == UnlockError::PlatformError(self.code_spec()),
    {
        UnlockError::PlatformError(self.code())
    }
}

} // verus!
