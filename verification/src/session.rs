//! One virtual camera for as long as a fix runs.
use vstd::prelude::*;

use crate::devices::{is_failure, repair_video_devices, RepairReport};
use crate::error::CamShimError;
use crate::split::first_where;
use crate::text::{concat2, parse_u32, parsed_number, strip_prefix, texts, without_prefix};

verus! {

/// The number in the path of a loopback device.
pub open spec fn loopback_number(path: Seq<char>) -> Option<nat> {
    match without_prefix(path, "/dev/video"@) {
        Some(digits) => parsed_number(digits, u32::MAX as nat),
        None => None,
    }
}

/// The number in the path of a loopback device.
pub fn loopback_index_of(path: &str) -> (r: Result<u32, CamShimError>)
    ensures
        match r {
            Ok(n) => loopback_number(path@) == Some(n as nat),
            Err(err) => loopback_number(path@) is None && err.is_other(
                "invalid loopback path: "@ + path@,
            ),
        },
{
    if let Some(digits) = strip_prefix(path, "/dev/video") {
        if let Some(n) = parse_u32(&digits) {
            return Ok(n);
        }
    }
    Err(CamShimError::other(concat2("invalid loopback path: ", path)))
}

/// A virtual camera that is removed when the fix ends, unless it is to be kept.
#[derive(Debug)]
pub struct FixSession {
    loopback_index: u32,
    loopback_path: String,
    cleanup_on_drop: bool,
}

/// A session for the virtual camera at a path, or its refusal.
pub open spec fn is_session_for(path: Seq<char>, r: Option<FixSession>) -> bool {
    match r {
        Some(session) => {
            &&& loopback_number(path) == Some(session.index() as nat)
            &&& session.path() == path
            &&& session.cleans_up()
        },
        None => loopback_number(path) is None,
    }
}

/// A session can be had for every virtual camera, under its path and number, and removes the camera at
/// its end; for a path that is not one of a video device there is none.
pub proof fn lemma_session_for_camera(nr: u32, path: Seq<char>, r: Option<FixSession>)
    requires
        is_session_for(path, r),
    ensures
        path == "/dev/video"@ + crate::text::decimal(nr as nat) ==> (r matches Some(session)
            && session.index() == nr && session.path() == path && session.cleans_up()),
        !"/dev/video"@.is_prefix_of(path) ==> r is None,
{
    crate::create::lemma_number_is_read_back(nr as nat);
    assert(crate::create::video_path(nr as nat) == "/dev/video"@ + crate::text::decimal(
        nr as nat,
    ));
}

impl FixSession {
    /// The number of the virtual camera.
    pub closed spec fn index(self) -> u32 {
        self.loopback_index
    }

    /// The path of the virtual camera.
    pub closed spec fn path(self) -> Seq<char> {
        self.loopback_path@
    }

    /// The virtual camera is removed when the fix ends.
    pub closed spec fn cleans_up(self) -> bool {
        self.cleanup_on_drop
    }

    /// A session for the virtual camera at a path. It is removed at the end.
    pub fn new(loopback_path: String) -> (r: Result<Self, CamShimError>)
        ensures
            is_session_for(
                loopback_path@,
                match r {
                    Ok(session) => Some(session),
                    Err(_) => None,
                },
            ),
            match r {
                Ok(session) => {
                    &&& loopback_number(loopback_path@) == Some(session.index() as nat)
                    &&& session.path() == loopback_path@
                    &&& session.cleans_up()
                },
                Err(err) => loopback_number(loopback_path@) is None && err.is_other(
                    "invalid loopback path: "@ + loopback_path@,
                ),
            },
    {
        match loopback_index_of(&loopback_path) {
            Ok(loopback_index) => Ok(
                FixSession { loopback_index, loopback_path, cleanup_on_drop: true },
            ),
            Err(err) => Err(err),
        }
    }

    /// The path of the virtual camera.
    pub fn loopback_path(&self) -> (r: &str)
        ensures
            r@ == self.path(),
    {
        self.loopback_path.as_str()
    }

    /// The number of the virtual camera.
    pub fn loopback_index(&self) -> (r: u32)
        ensures
            r == self.index(),
    {
        self.loopback_index
    }

    /// Keeps the virtual camera after the fix.
    pub fn disable_cleanup(&mut self)
        ensures
            !final(self).cleans_up(),
            final(self).index() == old(self).index(),
            final(self).path() == old(self).path(),
    {
        self.cleanup_on_drop = false;
    }

    /// Whether the virtual camera is removed when the fix ends.
    pub fn cleanup_on_drop(&self) -> (r: bool)
        ensures
            r == self.cleans_up(),
    {
        self.cleanup_on_drop
    }

    /// What a cleanup comes to: whether the virtual camera was removed. What the repair that follows
    /// came to does not count.
    pub fn cleanup(
        &mut self,
        removed: Result<(), CamShimError>,
        _repaired: Result<(), CamShimError>,
    ) -> (r: Result<(), CamShimError>)
        ensures
            r == removed,
            *final(self) == *old(self),
    {
        removed
    }
}

/// What a repair of the device nodes comes to, from what came of removing the left-over ones.
pub fn repair_devices(ghosts: &Vec<String>, outcomes: Vec<Result<(), CamShimError>>) -> (r: Result<
    RepairReport,
    CamShimError,
>)
    requires
        outcomes@.len() <= ghosts@.len(),
    ensures
        crate::devices::is_repair(ghosts@, outcomes@, r),
        ({
            let at = first_where(outcomes@, is_failure());
            match r {
                Err(err) => at < outcomes@.len() && outcomes@[at] == Err::<(), CamShimError>(err),
                Ok(report) => at == outcomes@.len() && texts(report.ghosts_removed@) == texts(
                    ghosts@,
                ).take(outcomes@.len() as int),
            }
        }),
{
    repair_video_devices(ghosts, outcomes)
}

} // verus!
