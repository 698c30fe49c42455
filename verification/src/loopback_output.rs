//! The output side of a loopback device.
//!
//! A loopback device shows itself to apps as a camera only once a producer has attached and queued
//! frames, and it refuses empty frames:
//!
//! ```text
//!   Unprimed ──prime──► Ready ──submit──► Streaming ──submit──► Streaming
//! ```
use vstd::prelude::*;

use crate::error::{CamShimError, IoFailure, IoKind};
use crate::media::Metadata;
use crate::sys::{again_code, busy_code, invalid_code};
use crate::text::{concat5, concat7, decimal, decimal_of, join, joined, texts};

verus! {

broadcast use crate::text::group_texts;

/// The number of output buffers.
pub const OUTPUT_BUFFERS: u32 = 2;

/// How far an output has come.
#[derive(Debug, Clone, Copy, PartialEq, Eq, Structural)]
pub enum LoopbackOutputState {
    /// No filled buffer was queued yet.
    Unprimed,
    /// Apps can attach.
    Ready,
    /// Frames are being submitted.
    Streaming,
}

/// What happens to an output.
#[derive(Debug, Clone, Copy, PartialEq, Eq, Structural)]
pub enum OutputEvent {
    Prime,
    Submit,
}

/// The state that follows, where the event is allowed.
pub open spec fn follows(current: LoopbackOutputState, event: OutputEvent) -> Option<
    LoopbackOutputState,
> {
    match (current, event) {
        (LoopbackOutputState::Unprimed, OutputEvent::Prime) => Some(LoopbackOutputState::Ready),
        (LoopbackOutputState::Ready, OutputEvent::Submit) => Some(LoopbackOutputState::Streaming),
        (LoopbackOutputState::Streaming, OutputEvent::Submit) => Some(
            LoopbackOutputState::Streaming,
        ),
        _ => None,
    }
}

/// The state that follows, where the event is allowed.
pub fn next_state(current: LoopbackOutputState, event: OutputEvent) -> (r: Option<
    LoopbackOutputState,
>)
    ensures
        r == follows(current, event),
{
    match (current, event) {
        (LoopbackOutputState::Unprimed, OutputEvent::Prime) => Some(LoopbackOutputState::Ready),
        (LoopbackOutputState::Ready, OutputEvent::Submit) => Some(LoopbackOutputState::Streaming),
        (LoopbackOutputState::Streaming, OutputEvent::Submit) => Some(
            LoopbackOutputState::Streaming,
        ),
        _ => None,
    }
}

/// A frame cannot be written now, but later.
pub open spec fn write_would_wait(err: IoFailure) -> bool {
    err.kind == IoKind::WouldBlock || err.os_code == Some(11i32)
}

/// Whether a frame cannot be written now, but later.
pub fn is_write_backpressure(err: &IoFailure) -> (r: bool)
    ensures
        r == write_would_wait(*err),
{
    if let IoKind::WouldBlock = err.kind {
        return true;
    }
    match err.os_code {
        Some(code) => code == again_code(),
        None => false,
    }
}

/// No buffer can be queued now, but later.
pub open spec fn queue_would_wait(err: IoFailure) -> bool {
    ||| err.kind == IoKind::TimedOut
    ||| err.os_code == Some(11i32)
    ||| err.os_code == Some(16i32)
    ||| err.os_code == Some(22i32)
}

/// Whether no buffer can be queued now, but later.
pub fn is_mmap_backpressure(err: &IoFailure) -> (r: bool)
    ensures
        r == queue_would_wait(*err),
{
    if let IoKind::TimedOut = err.kind {
        return true;
    }
    match err.os_code {
        Some(code) => code == again_code() || code == busy_code() || code == invalid_code(),
        None => false,
    }
}

/// The error that refuses an empty frame.
pub open spec fn is_empty_frame_error(err: CamShimError) -> bool {
    err.is_io(IoKind::InvalidInput, "refusing to queue empty loopback output frame"@)
}

/// Refuses an empty frame.
pub fn validate_frame(frame: &[u8]) -> (r: Result<(), CamShimError>)
    ensures
        match r {
            Ok(()) => frame@.len() > 0,
            Err(err) => frame@.len() == 0 && is_empty_frame_error(err),
        },
{
    if frame.len() == 0 {
        return Err(
            CamShimError::io(
                IoKind::InvalidInput,
                "refusing to queue empty loopback output frame".to_string(),
            ),
        );
    }
    Ok(())
}

/// A frame was put at the front of a buffer and its length noted, or it was refused.
pub open spec fn is_frame_write(
    before: Seq<u8>,
    after: Seq<u8>,
    bytesused: u32,
    frame: Seq<u8>,
    written: bool,
) -> bool {
    &&& written == (frame.len() <= before.len())
    &&& after.len() == before.len()
    &&& written ==> after == frame + before.skip(frame.len() as int) && bytesused
        == frame.len() as u32
    &&& !written ==> after == before
}

/// A frame that fits is read back from the buffer by its noted length, and what stands behind it in the
/// buffer stays; one that does not fit leaves the buffer as it was.
pub proof fn lemma_frame_is_read_back(
    before: Seq<u8>,
    after: Seq<u8>,
    bytesused: u32,
    frame: Seq<u8>,
    written: bool,
)
    requires
        is_frame_write(before, after, bytesused, frame, written),
        frame.len() <= u32::MAX,
    ensures
        frame.len() <= before.len() ==> after.take(bytesused as int) == frame && forall|i: int|
            frame.len() <= i < before.len() ==> #[trigger] after[i] == before[i],
        frame.len() > before.len() ==> after == before,
        after.len() == before.len(),
{
    if written {
        assert(after.take(bytesused as int) =~= frame);
    }
}

/// Puts a frame at the front of a buffer and notes its length. A frame that is longer than the
/// buffer is refused.
pub fn write_frame_into_buffer(buf: &mut [u8], meta: &mut Metadata, frame: &[u8]) -> (r: Result<
    (),
    CamShimError,
>)
    ensures
        is_frame_write(old(buf)@, final(buf)@, final(meta).bytesused, frame@, r is Ok),
        final(buf)@.len() == old(buf)@.len(),
        match r {
            Ok(()) => {
                &&& frame@.len() <= old(buf)@.len()
                &&& final(buf)@ == frame@ + old(buf)@.skip(frame@.len() as int)
                &&& final(meta).bytesused == frame@.len() as u32
                &&& final(meta).field == 0
            },
            Err(err) => {
                &&& frame@.len() > old(buf)@.len()
                &&& final(buf)@ == old(buf)@
                &&& *final(meta) == *old(meta)
                &&& err.is_io(
                    IoKind::InvalidInput,
                    "frame is "@ + decimal(frame@.len()) + " bytes but loopback buffer is only "@
                        + decimal(old(buf)@.len()) + " bytes"@,
                )
            },
        },
{
    let ghost was = buf@;
    if frame.len() > buf.len() {
        return Err(
            CamShimError::io(
                IoKind::InvalidInput,
                concat5(
                    "frame is ",
                    &decimal_of(frame.len() as u64),
                    " bytes but loopback buffer is only ",
                    &decimal_of(buf.len() as u64),
                    " bytes",
                ),
            ),
        );
    }
    let mut i: usize = 0;
    while i < frame.len()
        invariant
            i <= frame@.len() <= was.len(),
            buf@.len() == was.len(),
            forall|j: int| 0 <= j < i ==> buf@[j] == frame@[j],
            forall|j: int| i <= j < was.len() ==> buf@[j] == was[j],
        decreases frame@.len() - i,
    {
        buf[i] = frame[i];
        i += 1;
    }
    assert(buf@ =~= frame@ + was.skip(frame@.len() as int));
    meta.bytesused = #[verifier::truncate]
    (frame.len() as u32);
    meta.field = 0;
    Ok(())
}

/// The name of a state.
pub open spec fn state_text(state: LoopbackOutputState) -> Seq<char> {
    match state {
        LoopbackOutputState::Unprimed => "Unprimed"@,
        LoopbackOutputState::Ready => "Ready"@,
        LoopbackOutputState::Streaming => "Streaming"@,
    }
}

/// The name of a state.
pub fn state_name(state: LoopbackOutputState) -> (r: &'static str)
    ensures
        r@ == state_text(state),
{
    match state {
        LoopbackOutputState::Unprimed => "Unprimed",
        LoopbackOutputState::Ready => "Ready",
        LoopbackOutputState::Streaming => "Streaming",
    }
}

/// The error that refuses an action in a state.
pub open spec fn is_state_error(
    err: CamShimError,
    action: Seq<char>,
    current: LoopbackOutputState,
    allowed: Seq<char>,
) -> bool {
    err.is_io(
        IoKind::InvalidInput,
        "loopback output cannot "@ + action + " in state "@ + state_text(current) + " (allowed: "@
            + allowed + ")"@,
    )
}

/// The names of states, joined.
pub open spec fn state_list(states: Seq<LoopbackOutputState>) -> Seq<char> {
    joined(states.map_values(|state: LoopbackOutputState| state_text(state)), ", "@)
}

fn invalid_state(
    action: &str,
    current: LoopbackOutputState,
    allowed: &[LoopbackOutputState],
) -> (r: CamShimError)
    ensures
        is_state_error(r, action@, current, state_list(allowed@)),
{
    let mut names: Vec<String> = Vec::new();
    let ghost all = allowed@.map_values(|state: LoopbackOutputState| state_text(state));
    let mut i: usize = 0;
    while i < allowed.len()
        invariant
            i <= allowed@.len(),
            all == allowed@.map_values(|state: LoopbackOutputState| state_text(state)),
            texts(names@) == all.take(i as int),
        decreases allowed@.len() - i,
    {
        names.push(state_name(allowed[i]).to_string());
        assert(all.take(i + 1) =~= all.take(i as int).push(state_text(allowed@[i as int])));
        i += 1;
    }
    assert(all.take(i as int) =~= all);
    CamShimError::io(
        IoKind::InvalidInput,
        concat7(
            "loopback output cannot ",
            action,
            " in state ",
            state_name(current),
            " (allowed: ",
            &join(&names, ", "),
            ")",
        ),
    )
}

/// The output of a loopback device.
#[derive(Debug)]
pub struct LoopbackOutput {
    state: LoopbackOutputState,
}

/// What follows on an attempt to write a frame.
#[derive(Debug)]
pub enum SubmitStep {
    /// The frame was taken, or skipped because the device is full.
    Accepted,
    /// The device is busy: queue the frame in a buffer.
    QueueBuffer,
    Failed(CamShimError),
}

/// What follows on an attempt to write a frame.
pub open spec fn step_after_write(written: Result<(), IoFailure>) -> SubmitStep {
    match written {
        Ok(()) => SubmitStep::Accepted,
        Err(err) => if write_would_wait(err) {
            SubmitStep::Accepted
        } else if err.os_code == Some(16i32) {
            SubmitStep::QueueBuffer
        } else {
            SubmitStep::Failed(CamShimError::Io(err))
        },
    }
}

/// The result of an attempt to queue a frame in a buffer.
pub open spec fn result_of_queue(queued: Result<(), CamShimError>) -> Result<(), CamShimError> {
    match queued {
        Ok(()) => Ok(()),
        Err(err) => if err matches CamShimError::Io(failure) && queue_would_wait(failure) {
            Ok(())
        } else {
            Err(err)
        },
    }
}

/// A write that would have to wait, by its kind or by error 11, skips the frame; one that finds the
/// device busy, by error 16, has it queued; and every other failure is handed on. A queue that is full,
/// by its kind or by error 11, 16 or 22, skips the frame too; nothing else that fails is passed over.
pub proof fn lemma_full_device_skips_frame(err: IoFailure)
    ensures
        err.kind == IoKind::WouldBlock || err.os_code == Some(11i32) <==> step_after_write(Err(err))
            == SubmitStep::Accepted,
        err.os_code == Some(16i32) && err.kind != IoKind::WouldBlock <==> step_after_write(Err(err))
            == SubmitStep::QueueBuffer,
        step_after_write(Err(err)) is Failed ==> step_after_write(Err(err)) == SubmitStep::Failed(
            CamShimError::Io(err),
        ),
        step_after_write(Ok(())) == SubmitStep::Accepted,
        result_of_queue(Err(CamShimError::Io(err))) is Ok <==> err.kind == IoKind::TimedOut
            || err.os_code == Some(11i32) || err.os_code == Some(16i32) || err.os_code == Some(
            22i32,
        ),
        result_of_queue(Err(CamShimError::Io(err))) is Err ==> result_of_queue(
            Err(CamShimError::Io(err)),
        ) == Err::<(), CamShimError>(CamShimError::Io(err)),
        result_of_queue(Ok(())) is Ok,
{
}

/// The output can be primed with a frame of the given length.
pub open spec fn can_prime(stage: LoopbackOutputState, len: nat) -> bool {
    stage == LoopbackOutputState::Unprimed && len > 0
}

/// A frame of the given length can be submitted.
pub open spec fn can_submit(stage: LoopbackOutputState, len: nat) -> bool {
    stage != LoopbackOutputState::Unprimed && len > 0
}

/// An empty frame is always refused. Of any other one an output takes it for priming or for submitting,
/// never for both, and exactly where the event is allowed.
pub proof fn lemma_frames_are_taken(stage: LoopbackOutputState, len: nat)
    ensures
        !can_prime(stage, 0) && !can_submit(stage, 0),
        len > 0 ==> can_prime(stage, len) != can_submit(stage, len),
        len > 0 ==> (can_prime(stage, len) <==> follows(stage, OutputEvent::Prime) is Some),
        len > 0 ==> (can_submit(stage, len) <==> follows(stage, OutputEvent::Submit) is Some),
        follows(LoopbackOutputState::Unprimed, OutputEvent::Prime) == Some(
            LoopbackOutputState::Ready,
        ),
        follows(stage, OutputEvent::Submit) is Some ==> follows(stage, OutputEvent::Submit) == Some(
            LoopbackOutputState::Streaming,
        ),
{
}

impl LoopbackOutput {
    /// How far the output has come.
    pub closed spec fn stage(self) -> LoopbackOutputState {
        self.state
    }

    /// An output on which nothing was queued yet.
    pub fn open() -> (r: Self)
        ensures
            r.stage() == LoopbackOutputState::Unprimed,
    {
        LoopbackOutput { state: LoopbackOutputState::Unprimed }
    }

    /// How far the output has come.
    pub fn state(&self) -> (r: LoopbackOutputState)
        ensures
            r == self.stage(),
    {
        self.state
    }

    /// Whether the output can be primed with a frame.
    pub fn check_prime(&self, frame: &[u8]) -> (r: Result<(), CamShimError>)
        ensures
            r is Ok <==> can_prime(self.stage(), frame@.len()),
            match r {
                Ok(()) => self.stage() == LoopbackOutputState::Unprimed && frame@.len() > 0,
                Err(err) => if self.stage() != LoopbackOutputState::Unprimed {
                    is_state_error(
                        err,
                        "prime"@,
                        self.stage(),
                        state_list(seq![LoopbackOutputState::Unprimed]),
                    )
                } else {
                    frame@.len() == 0 && is_empty_frame_error(err)
                },
            },
    {
        match self.state {
            LoopbackOutputState::Unprimed => validate_frame(frame),
            _ => {
                let allowed: [LoopbackOutputState; 1] = [LoopbackOutputState::Unprimed];
                assert(allowed@ =~= seq![LoopbackOutputState::Unprimed]);
                Err(invalid_state("prime", self.state, &allowed))
            },
        }
    }

    /// Takes note of the first frame, which was queued in two buffers, or was not.
    pub fn prime(&mut self, queued: Result<(), CamShimError>) -> (r: Result<(), CamShimError>)
        requires
            old(self).stage() == LoopbackOutputState::Unprimed,
        ensures
            r == queued,
            queued is Ok ==> follows(old(self).stage(), OutputEvent::Prime) == Some(
                final(self).stage(),
            ),
            final(self).stage() == if queued is Ok {
                LoopbackOutputState::Ready
            } else {
                LoopbackOutputState::Unprimed
            },
    {
        if let Ok(()) = &queued {
            self.state = LoopbackOutputState::Ready;
        }
        queued
    }

    /// Whether a frame can be submitted.
    pub fn check_submit(&self, frame: &[u8]) -> (r: Result<(), CamShimError>)
        ensures
            r is Ok <==> can_submit(self.stage(), frame@.len()),
            match r {
                Ok(()) => self.stage() != LoopbackOutputState::Unprimed && frame@.len() > 0,
                Err(err) => if self.stage() == LoopbackOutputState::Unprimed {
                    is_state_error(
                        err,
                        "submit"@,
                        self.stage(),
                        state_list(
                            seq![LoopbackOutputState::Ready, LoopbackOutputState::Streaming],
                        ),
                    )
                } else {
                    frame@.len() == 0 && is_empty_frame_error(err)
                },
            },
    {
        match self.state {
            LoopbackOutputState::Unprimed => {
                let allowed: [LoopbackOutputState; 2] = [
                    LoopbackOutputState::Ready,
                    LoopbackOutputState::Streaming,
                ];
                assert(allowed@ =~= seq![
                    LoopbackOutputState::Ready,
                    LoopbackOutputState::Streaming,
                ]);
                Err(invalid_state("submit", self.state, &allowed))
            },
            _ => validate_frame(frame),
        }
    }

    /// Takes note of an attempt to write a frame: a full device skips the frame, a busy one has it
    /// queued in a buffer.
    pub fn submit(&mut self, written: Result<(), IoFailure>) -> (r: SubmitStep)
        requires
            old(self).stage() != LoopbackOutputState::Unprimed,
        ensures
            final(self).stage() == if written is Ok {
                LoopbackOutputState::Streaming
            } else {
                old(self).stage()
            },
            written is Ok ==> follows(old(self).stage(), OutputEvent::Submit) == Some(
                final(self).stage(),
            ),
            r == step_after_write(written),
            match written {
                Ok(()) => r == SubmitStep::Accepted,
                Err(err) => if write_would_wait(err) {
                    r == SubmitStep::Accepted
                } else if err.os_code == Some(16i32) {
                    r == SubmitStep::QueueBuffer
                } else {
                    r == SubmitStep::Failed(CamShimError::Io(err))
                },
            },
    {
        match written {
            Ok(()) => {
                self.state = LoopbackOutputState::Streaming;
                SubmitStep::Accepted
            },
            Err(err) => {
                if is_write_backpressure(&err) {
                    return SubmitStep::Accepted;
                }
                let busy = match err.os_code {
                    Some(code) => code == busy_code(),
                    None => false,
                };
                if busy {
                    SubmitStep::QueueBuffer
                } else {
                    SubmitStep::Failed(CamShimError::Io(err))
                }
            },
        }
    }

    /// Takes note of an attempt to queue a frame in a buffer: a full queue skips the frame.
    pub fn submit_via_mmap(&mut self, queued: Result<(), CamShimError>) -> (r: Result<
        (),
        CamShimError,
    >)
        requires
            old(self).stage() != LoopbackOutputState::Unprimed,
        ensures
            final(self).stage() == if queued is Ok {
                LoopbackOutputState::Streaming
            } else {
                old(self).stage()
            },
            queued is Ok ==> follows(old(self).stage(), OutputEvent::Submit) == Some(
                final(self).stage(),
            ),
            r == result_of_queue(queued),
            match queued {
                Ok(()) => r is Ok,
                Err(err) => if err matches CamShimError::Io(failure) && queue_would_wait(failure) {
                    r is Ok
                } else {
                    r == queued
                },
            },
    {
        match queued {
            Ok(()) => {
                self.state = LoopbackOutputState::Streaming;
                Ok(())
            },
            Err(err) => {
                if LoopbackOutput::is_mmap_backpressure(&err) {
                    Ok(())
                } else {
                    Err(err)
                }
            },
        }
    }

    /// Whether the error says that the device is full.
    pub fn is_backpressure(err: &CamShimError) -> (r: bool)
        ensures
            r == (*err matches CamShimError::Io(failure) && (write_would_wait(failure)
                || queue_would_wait(failure))),
    {
        match err {
            CamShimError::Io(failure) => is_write_backpressure(failure) || is_mmap_backpressure(
                failure,
            ),
            _ => false,
        }
    }

    /// Whether the error says that no buffer can be queued now.
    pub fn is_mmap_backpressure(err: &CamShimError) -> (r: bool)
        ensures
            r == (*err matches CamShimError::Io(failure) && queue_would_wait(failure)),
    {
        match err {
            CamShimError::Io(failure) => is_mmap_backpressure(failure),
            _ => false,
        }
    }

    /// Whether the error says that no buffer came free in time.
    pub fn is_queue_timeout(err: &CamShimError) -> (r: bool)
        ensures
            r == (*err matches CamShimError::Io(failure) && queue_would_wait(failure)),
    {
        LoopbackOutput::is_mmap_backpressure(err)
    }
}

/// The order of the states.
pub open spec fn progress(state: LoopbackOutputState) -> int {
    match state {
        LoopbackOutputState::Unprimed => 0,
        LoopbackOutputState::Ready => 1,
        LoopbackOutputState::Streaming => 2,
    }
}

/// An output never goes back, it leaves `Unprimed` by being primed only, and once it streams it goes
/// on streaming.
pub proof fn lemma_output_moves_forward(current: LoopbackOutputState, event: OutputEvent)
    ensures
        follows(current, event) matches Some(next) ==> progress(next) >= progress(current),
        current == LoopbackOutputState::Unprimed && follows(current, event) is Some ==> event
            == OutputEvent::Prime,
        follows(LoopbackOutputState::Streaming, event) matches Some(next) ==> next
            == LoopbackOutputState::Streaming,
{
}

} // verus!
