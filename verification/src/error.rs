//! Errors of the library.
use vstd::prelude::*;

use crate::text::concat2;

verus! {

/// The kinds of input and output failure that decisions depend on.
#[derive(Debug, Clone, Copy, PartialEq, Eq, Structural)]
pub enum IoKind {
    NotFound,
    WouldBlock,
    Interrupted,
    TimedOut,
    InvalidInput,
    InvalidData,
    Other,
}

/// A failed input or output operation: its kind, the code of the operating system where it gave
/// one, and the message for people.
#[derive(Debug)]
pub struct IoFailure {
    pub kind: IoKind,
    pub os_code: Option<i32>,
    pub message: String,
}

impl Clone for IoFailure {
    fn clone(&self) -> (r: Self)
        ensures
            r == *self,
    {
        IoFailure { kind: self.kind, os_code: self.os_code, message: self.message.clone() }
    }
}

/// What can go wrong.
#[derive(Debug)]
pub enum CamShimError {
    DeviceNotFound(String),
    NotCaptureDevice(String),
    Io(IoFailure),
}

impl Clone for CamShimError {
    fn clone(&self) -> (r: Self)
        ensures
            r == *self,
    {
        match self {
            CamShimError::DeviceNotFound(path) => CamShimError::DeviceNotFound(path.clone()),
            CamShimError::NotCaptureDevice(path) => CamShimError::NotCaptureDevice(path.clone()),
            CamShimError::Io(failure) => CamShimError::Io(failure.clone()),
        }
    }
}

impl CamShimError {
    /// The message for people.
    pub open spec fn text(self) -> Seq<char> {
        match self {
            CamShimError::DeviceNotFound(path) => "device not found: "@ + path@,
            CamShimError::NotCaptureDevice(path) => "device is not a video capture source: "@
                + path@,
            CamShimError::Io(failure) => "io error: "@ + failure.message@,
        }
    }

    /// The message for people.
    pub fn message(&self) -> (r: String)
        ensures
            r@ == self.text(),
    {
        match self {
            CamShimError::DeviceNotFound(path) => concat2("device not found: ", path),
            CamShimError::NotCaptureDevice(path) => concat2(
                "device is not a video capture source: ",
                path,
            ),
            CamShimError::Io(failure) => concat2("io error: ", &failure.message),
        }
    }

    /// An input or output error of the given kind and message that carries no system code.
    pub open spec fn is_io(self, kind: IoKind, message: Seq<char>) -> bool {
        self matches CamShimError::Io(failure) && failure.kind == kind && failure.os_code is None
            && failure.message@ == message
    }

    /// An input or output error of no particular kind with the given message.
    pub open spec fn is_other(self, message: Seq<char>) -> bool {
        self.is_io(IoKind::Other, message)
    }

    /// Makes an input or output error of the given kind.
    pub fn io(kind: IoKind, message: String) -> (r: Self)
        ensures
            r.is_io(kind, message@),
    {
        CamShimError::Io(IoFailure { kind, os_code: None, message })
    }

    /// Makes an input or output error of no particular kind.
    pub fn other(message: String) -> (r: Self)
        ensures
            r.is_other(message@),
    {
        CamShimError::io(IoKind::Other, message)
    }
}

} // verus!
