//! The exception channel: a mutable record of the most severe failure seen
//! during one decode or encode call.
//!
//! The host owns one such record per call.  It starts clear ("undefined"
//! severity); once any operation records a failure, the call chain must
//! treat the operation as failed from that point on.  Failures are never
//! recovered: the first error aborts the rest of the call.

use vstd::prelude::*;

verus! {

/// Category of a recorded failure.
#[derive(Clone, Copy, Debug, PartialEq, Eq, Structural)]
pub enum Exception {
    /// A resource could not be acquired (for example, a pixel buffer or a
    /// colormap of the requested size).
    ResourceLimitError,
    /// Structurally invalid content, such as zero dimensions or a
    /// truncated stream.
    CorruptImageError,
    /// A format-level protocol violation, such as a wrong magic header.
    CoderError,
}

/// Short symbolic tag naming the precise failure.
#[derive(Clone, Copy, Debug, PartialEq, Eq, Structural)]
pub enum ExceptionTag {
    /// Fewer bytes were returned from the stream than were requested.
    ShortRead,
    /// The two-byte WBMP header was not zero.
    OnlyLevelZerofilesSupported,
    /// A declared image dimension was zero.
    ImproperImageHeader,
    /// An allocation request was out of range.
    MemoryAllocationFailed,
}

/// One recorded failure: its category, tag, and the source location that
/// reported it.
#[derive(Clone, Copy, Debug, PartialEq, Eq)]
pub struct ExceptionRecord {
    pub kind: Exception,
    pub tag: ExceptionTag,
    pub location: &'static str,
}

/// The exception channel itself.  `record` is `None` while no failure has
/// been recorded (the "undefined" severity).
#[derive(Debug)]
pub struct ExceptionInfo {
    pub record: Option<ExceptionRecord>,
}

/// How severe a failure category is; a report only replaces the current
/// record when it is at least as severe.
pub open spec fn severity_rank(kind: Exception) -> int {
    match kind {
        Exception::ResourceLimitError => 1,
        Exception::CorruptImageError => 2,
        Exception::CoderError => 3,
    }
}

/// The channel value that results from reporting `(kind, tag, location)`
/// into channel `e`.
pub open spec fn thrown(
    e: ExceptionInfo,
    kind: Exception,
    tag: ExceptionTag,
    location: &'static str,
) -> ExceptionInfo {
    match e.record {
        None => ExceptionInfo {
            record: Some(ExceptionRecord { kind, tag, location }),
        },
        Some(r) => if severity_rank(kind) >= severity_rank(r.kind) {
            ExceptionInfo {
                record: Some(ExceptionRecord { kind, tag, location }),
            }
        } else {
            e
        },
    }
}

impl ExceptionInfo {
    /// True while no failure has been recorded.
    pub open spec fn is_clear(&self) -> bool {
        self.record is None
    }

    /// A fresh channel, as the host supplies at the start of a call.
    pub fn new() -> (r: ExceptionInfo)
        ensures
            r.is_clear(),
    {
        ExceptionInfo { record: None }
    }

    /// Examines the current severity: `Ok` exactly when no failure has
    /// been recorded.  Every operation that can fail must be followed by
    /// this check before its result is used.
    pub fn check(&self) -> (r: Result<(), ()>)
        ensures
            r is Ok <==> self.is_clear(),
    {
        match self.record {
            None => Ok(()),
            Some(_) => Err(()),
        }
    }

    /// Records a structured failure and always yields `Err`, so callers
    /// can propagate it directly.  A report replaces the current record
    /// only when it is at least as severe.
    pub fn throw(
        &mut self,
        kind: Exception,
        tag: ExceptionTag,
        location: &'static str,
    ) -> (r: Result<(), ()>)
        ensures
            r is Err,
            *final(self) == thrown(*old(self), kind, tag, location),
    {
        let replace = match &self.record {
            None => true,
            Some(r) => severity_rank_value(kind) >= severity_rank_value(r.kind),
        };
        if replace {
            self.record = Some(ExceptionRecord { kind, tag, location });
        }
        Err(())
    }
}

/// Executable counterpart of [`severity_rank`].
fn severity_rank_value(kind: Exception) -> (r: u8)
    ensures
        r == severity_rank(kind),
{
    match kind {
        Exception::ResourceLimitError => 1,
        Exception::CorruptImageError => 2,
        Exception::CoderError => 3,
    }
}

} // verus!
