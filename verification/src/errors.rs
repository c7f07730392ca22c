//! The error taxonomy of the kernel.
//!
//! Script I/O problems (`OpenError`, `ReadError`) and duplicate admission
//! (`AlreadyLoaded`) are recoverable per filename; `NoSuchJob` and
//! `IllegalState` mark inconsistent kernel state; `OutOfMemory` is an
//! admission rejection; `OutOfBounds` and `DoubleFree` mark memory-model
//! violations; `EmptyQueue` is a no-op schedule call.

use vstd::prelude::*;

verus! {

#[derive(Clone, Debug, PartialEq, Eq, Structural)]
pub enum KernelError {
    /// The script file could not be opened.
    OpenError,
    /// Reading the script failed at the given line index.
    ReadError(usize),
    /// A program for this filename is already live; use the sharing path.
    AlreadyLoaded,
    /// The sharing path found no live job for a filename the loader
    /// reported as already loaded.
    NoSuchJob,
    /// Fewer frames are free than the admission needs.
    OutOfMemory,
    /// A program-memory access outside the configured capacity.
    OutOfBounds(usize),
    /// An attempt to free a frame that is already free.
    DoubleFree(usize),
    /// `execute_fcfs_schedule` was called with no queued job.
    EmptyQueue,
    /// An admission call with inconsistent arguments.
    IllegalState,
}

} // verus!
