//! One round of the supervisor, step by step: workers that failed are taken away and stopped, then
//! shims of cameras that were unplugged are taken away, and then each camera that needs a shim is
//! attended to.
use vstd::prelude::*;

use crate::error::CamShimError;
use crate::serve::{
    after_failure, candidate_views, fresh_state, has_candidate, has_ended, has_stalled,
    is_considered, is_unplugged, managed_without, may_start, state_of, states_forgotten, stops,
    CandidateStep, ManagedCamera, ServeConfig, ShimCandidate, StoppedCamera, Supervisor,
    WorkerStatus,
};
use crate::table::Table;
use crate::text::texts;

verus! {

broadcast use crate::text::group_texts;

/// How far a round has come.
#[derive(Debug, Clone, Copy, PartialEq, Eq, Structural)]
pub enum RoundPhase {
    /// Shims whose worker has ended are taken away.
    ReapDead,
    /// Such a shim is being stopped.
    StopDead,
    /// Shims whose worker hands over no frames are taken away.
    ReapStale,
    /// Such a shim is being stopped.
    StopStale,
    /// Cameras that need a shim are looked for.
    Discover,
    /// Shims of cameras that were unplugged are taken away.
    Unplug,
    /// It is decided about the candidate that the round is at.
    Attend,
    /// A shim is being started for that candidate.
    Starting,
    Finished,
}

/// A round of the supervisor.
#[derive(Debug)]
pub struct Round {
    pub phase: RoundPhase,
    /// When the round began, in nanoseconds.
    pub now_ns: u64,
    /// The shims whose worker failed.
    pub reaped: Vec<StoppedCamera>,
    /// How many of them were stopped.
    pub stopped: usize,
    pub candidates: Vec<ShimCandidate>,
    pub at: usize,
    /// A shim was started.
    pub started: bool,
}

/// A camera was attended to: it has a shim, or it has failed.
pub open spec fn attended(supervisor: Supervisor, serial: Seq<char>) -> bool {
    supervisor.managed@.contains_key(serial) || state_of(
        supervisor.serial_states@,
        serial,
    ).consecutive_failures >= 1
}

/// The phase in which the candidate at a position is decided about.
pub open spec fn phase_at(at: int, len: int) -> RoundPhase {
    if at < len {
        RoundPhase::Attend
    } else {
        RoundPhase::Finished
    }
}

/// What is noted of an attempt to start a shim.
pub open spec fn start_noted(
    before: Supervisor,
    after: Supervisor,
    serial: Seq<char>,
    config: ServeConfig,
    result: Result<ManagedCamera, CamShimError>,
    now_ns: u64,
) -> bool {
    match result {
        Ok(camera) => {
            &&& after.managed@ == before.managed@.insert(serial, camera)
            &&& after.serial_states@ == before.serial_states@.insert(serial, fresh_state())
        },
        Err(_) => {
            &&& after.managed == before.managed
            &&& after.serial_states@ == before.serial_states@.insert(
                serial,
                after_failure(state_of(before.serial_states@, serial), config, now_ns),
            )
        },
    }
}

/// A shim that was started is managed, and its camera has no failure on record and may be tried at any
/// time. One that could not be started is not, and its camera has one failure more. No other camera is
/// touched.
pub proof fn lemma_start_is_noted(
    before: Supervisor,
    after: Supervisor,
    serial: Seq<char>,
    config: ServeConfig,
    result: Result<ManagedCamera, CamShimError>,
    now_ns: u64,
    other: Seq<char>,
)
    requires
        start_noted(before, after, serial, config, result, now_ns),
        !before.managed@.contains_key(serial),
    ensures
        result is Ok <==> after.managed@.contains_key(serial),
        result matches Ok(camera) ==> after.managed@[serial] == camera && after.serial_states@.contains_key(
            serial,
        ) && after.serial_states@[serial].consecutive_failures == 0
            && after.serial_states@[serial].retry_after is None
            && after.serial_states@[serial].quarantined_until is None,
        result is Err ==> after.serial_states@.contains_key(serial)
            && after.serial_states@[serial].retry_after is Some && (before.serial_states@.contains_key(
            serial,
        ) && before.serial_states@[serial].consecutive_failures < u32::MAX
            ==> after.serial_states@[serial].consecutive_failures
            == before.serial_states@[serial].consecutive_failures + 1) && (
        !before.serial_states@.contains_key(serial)
            ==> after.serial_states@[serial].consecutive_failures == 1),
        other != serial ==> (after.managed@.contains_key(other) <==> before.managed@.contains_key(
            other,
        )) && (after.serial_states@.contains_key(other) <==> before.serial_states@.contains_key(
            other,
        )) && (before.serial_states@.contains_key(other) ==> after.serial_states@[other]
            == before.serial_states@[other]) && (before.managed@.contains_key(other)
            ==> after.managed@[other] == before.managed@[other]),
{
}

impl Round {
    /// The serial of the candidate that the round is at.
    pub open spec fn serial(self) -> Seq<char> {
        self.candidates@[self.at as int].serial@
    }

    /// The round still deals with shims that fail or are gone, and has started none.
    pub open spec fn takes_away(self) -> bool {
        match self.phase {
            RoundPhase::Attend | RoundPhase::Starting | RoundPhase::Finished => false,
            _ => true,
        }
    }

    /// Each camera whose worker was taken away has no shim, and once it was stopped a failure is on
    /// record. The candidates before the one that the round is at were attended to, and a shim is
    /// being started only for a camera that may have one and has none.
    pub open spec fn wf(self, supervisor: Supervisor) -> bool {
        &&& supervisor.wf()
        &&& self.stopped <= self.reaped@.len()
        &&& self.at <= self.candidates@.len()
        &&& match self.phase {
            RoundPhase::ReapDead => self.reaped@.len() == 0,
            RoundPhase::StopDead | RoundPhase::StopStale => self.stopped < self.reaped@.len(),
            _ => self.stopped == self.reaped@.len(),
        }
        &&& match self.phase {
            RoundPhase::Attend => self.at < self.candidates@.len(),
            RoundPhase::Starting => {
                &&& self.at < self.candidates@.len()
                &&& !supervisor.managed@.contains_key(self.serial())
                &&& may_start(state_of(supervisor.serial_states@, self.serial()), self.now_ns)
            },
            RoundPhase::Finished => self.at == self.candidates@.len(),
            _ => self.at == 0 && !self.started,
        }
        &&& forall|i: int, j: int|
            0 <= i < j < self.reaped@.len() ==> (#[trigger] self.reaped@[i]).serial@ != (
            #[trigger] self.reaped@[j]).serial@
        &&& forall|i: int|
            0 <= i < self.reaped@.len() && self.takes_away()
                ==> !supervisor.managed@.contains_key((#[trigger] self.reaped@[i]).serial@) && (i
                < self.stopped ==> attended(supervisor, self.reaped@[i].serial@))
        &&& forall|i: int|
            0 <= i < self.at ==> attended(supervisor, (#[trigger] self.candidates@[i]).serial@) || (
            self.phase == RoundPhase::Starting && self.candidates@[i].serial@ == self.serial())
    }

    /// Begins a round.
    pub fn begin(now_ns: u64) -> (r: Self)
        ensures
            forall|supervisor: Supervisor| supervisor.wf() ==> #[trigger] r.wf(supervisor),
            r.phase == RoundPhase::ReapDead,
            r.now_ns == now_ns,
            r.reaped@.len() == 0,
            r.candidates@.len() == 0,
            !r.started,
    {
        Round {
            phase: RoundPhase::ReapDead,
            now_ns,
            reaped: Vec::new(),
            stopped: 0,
            candidates: Vec::new(),
            at: 0,
            started: false,
        }
    }

    /// Takes away the shims whose worker has ended.
    pub fn reap_dead(&mut self, supervisor: &mut Supervisor, workers: &Table<WorkerStatus>)
        requires
            old(self).wf(*old(supervisor)),
            old(self).phase == RoundPhase::ReapDead,
        ensures
            final(self).wf(*final(supervisor)),
            *final(self) == (Round {
                phase: if final(self).reaped@.len() > 0 {
                    RoundPhase::StopDead
                } else {
                    RoundPhase::ReapStale
                },
                reaped: final(self).reaped,
                ..*old(self)
            }),
            stops(old(supervisor).managed@, final(self).reaped@, has_ended(workers@)),
            managed_without(
                old(supervisor).managed@,
                final(supervisor).managed@,
                has_ended(workers@),
            ),
            final(supervisor).serial_states == old(supervisor).serial_states,
    {
        self.reaped = supervisor.reap_dead_workers(workers);
        self.phase = if self.reaped.len() > 0 {
            RoundPhase::StopDead
        } else {
            RoundPhase::ReapStale
        };
    }

    /// Takes away the shims whose worker hands over no frames.
    pub fn reap_stale(
        &mut self,
        supervisor: &mut Supervisor,
        config: &ServeConfig,
        workers: &Table<WorkerStatus>,
        now_ms: u64,
    )
        requires
            old(self).wf(*old(supervisor)),
            old(self).phase == RoundPhase::ReapStale,
        ensures
            final(self).wf(*final(supervisor)),
            *final(self) == (Round {
                phase: if final(self).reaped@.len() > old(self).reaped@.len() {
                    RoundPhase::StopStale
                } else {
                    RoundPhase::Discover
                },
                reaped: final(self).reaped,
                ..*old(self)
            }),
            old(self).reaped@.is_prefix_of(final(self).reaped@),
            stops(
                old(supervisor).managed@,
                final(self).reaped@.skip(old(self).reaped@.len() as int),
                has_stalled(workers@, now_ms, config.stale_frame_timeout_ms),
            ),
            managed_without(
                old(supervisor).managed@,
                final(supervisor).managed@,
                has_stalled(workers@, now_ms, config.stale_frame_timeout_ms),
            ),
            final(supervisor).serial_states == old(supervisor).serial_states,
    {
        let mut stale = supervisor.reap_stale_workers(config, now_ms, workers);
        let ghost dead = self.reaped@;
        let ghost more = stale@;
        self.reaped.append(&mut stale);
        self.phase = if self.stopped < self.reaped.len() {
            RoundPhase::StopStale
        } else {
            RoundPhase::Discover
        };
        proof {
            assert(self.reaped@ =~= dead + more);
            assert(self.reaped@.skip(dead.len() as int) =~= more);
            assert(self.reaped@.subrange(0, dead.len() as int) =~= dead);
            assert forall|i: int, j: int| 0 <= i < j < self.reaped@.len() implies (
            #[trigger] self.reaped@[i]).serial@ != (#[trigger] self.reaped@[j]).serial@ by {
                if j < dead.len() {
                    assert(dead[i].serial@ != dead[j].serial@);
                } else if i >= dead.len() {
                    assert(more[i - dead.len()].serial@ != more[j - dead.len()].serial@);
                } else {
                    assert(old(supervisor).managed@.contains_key(
                        more[j - dead.len()].serial@,
                    ));
                    assert(!old(supervisor).managed@.contains_key(dead[i].serial@));
                }
            }
            assert forall|i: int| 0 <= i < self.reaped@.len() implies
                !supervisor.managed@.contains_key((#[trigger] self.reaped@[i]).serial@) && (i
                < self.stopped ==> attended(*supervisor, self.reaped@[i].serial@)) by {
                if i < dead.len() {
                    assert(attended(*old(supervisor), dead[i].serial@));
                } else {
                    assert(self.reaped@[i] == more[i - dead.len()]);
                }
            }
        }
    }

    /// The shim that is being stopped.
    pub fn stopping(&self) -> (r: &StoppedCamera)
        requires
            self.stopped < self.reaped@.len(),
        ensures
            *r == self.reaped@[self.stopped as int],
    {
        &self.reaped[self.stopped]
    }

    /// Takes note that the shim is stopped, and of the failure of its camera. The time is the one
    /// after the shim was stopped.
    pub fn stop_done(&mut self, supervisor: &mut Supervisor, config: &ServeConfig, now_ns: u64)
        requires
            old(self).wf(*old(supervisor)),
            old(self).phase == RoundPhase::StopDead || old(self).phase == RoundPhase::StopStale,
        ensures
            final(self).wf(*final(supervisor)),
            *final(self) == (Round {
                phase: if old(self).stopped + 1 < old(self).reaped@.len() {
                    old(self).phase
                } else if old(self).phase == RoundPhase::StopDead {
                    RoundPhase::ReapStale
                } else {
                    RoundPhase::Discover
                },
                stopped: (old(self).stopped + 1) as usize,
                ..*old(self)
            }),
            final(supervisor).managed == old(supervisor).managed,
            final(supervisor).serial_states@ == old(supervisor).serial_states@.insert(
                old(self).reaped@[old(self).stopped as int].serial@,
                after_failure(
                    state_of(
                        old(supervisor).serial_states@,
                        old(self).reaped@[old(self).stopped as int].serial@,
                    ),
                    *config,
                    now_ns,
                ),
            ),
    {
        assert(self.stopped < self.reaped.len());
        assert(!supervisor.managed@.contains_key(self.reaped@[self.stopped as int].serial@));
        supervisor.note_failure(&self.reaped[self.stopped].serial, config, now_ns);
        self.stopped += 1;
        if self.stopped == self.reaped.len() {
            self.phase = match self.phase {
                RoundPhase::StopDead => RoundPhase::ReapStale,
                _ => RoundPhase::Discover,
            };
        }
        proof {
            assert forall|i: int| 0 <= i < self.reaped@.len() implies
                !supervisor.managed@.contains_key((#[trigger] self.reaped@[i]).serial@) && (i
                < self.stopped ==> attended(*supervisor, self.reaped@[i].serial@)) by {
                if i < old(self).stopped {
                    assert(attended(*old(supervisor), old(self).reaped@[i].serial@));
                }
            }
        }
    }

    /// Takes note of the cameras that need a shim.
    pub fn discovered(&mut self, supervisor: &Supervisor, candidates: Vec<ShimCandidate>)
        requires
            old(self).wf(*supervisor),
            old(self).phase == RoundPhase::Discover,
        ensures
            final(self).wf(*supervisor),
            *final(self) == (Round { phase: RoundPhase::Unplug, candidates, ..*old(self) }),
    {
        self.candidates = candidates;
        self.phase = RoundPhase::Unplug;
    }

    /// Takes away the shims of cameras that are no candidates and are not present.
    pub fn unplug(&mut self, supervisor: &mut Supervisor, present: &Vec<String>) -> (r: Vec<
        StoppedCamera,
    >)
        requires
            old(self).wf(*old(supervisor)),
            old(self).phase == RoundPhase::Unplug,
        ensures
            final(self).wf(*final(supervisor)),
            *final(self) == (Round {
                phase: phase_at(0, old(self).candidates@.len() as int),
                ..*old(self)
            }),
            managed_without(
                old(supervisor).managed@,
                final(supervisor).managed@,
                is_unplugged(candidate_views(old(self).candidates@), texts(present@)),
            ),
            stops(
                old(supervisor).managed@,
                r@,
                is_unplugged(candidate_views(old(self).candidates@), texts(present@)),
            ),
            states_forgotten(
                old(supervisor).managed@,
                old(supervisor).serial_states@,
                final(supervisor).serial_states@,
                is_unplugged(candidate_views(old(self).candidates@), texts(present@)),
            ),
    {
        let stopped = supervisor.unplug(&self.candidates, present);
        self.phase = if self.candidates.len() > 0 {
            RoundPhase::Attend
        } else {
            RoundPhase::Finished
        };
        stopped
    }

    /// The candidate that the round is at.
    pub fn candidate(&self) -> (r: &ShimCandidate)
        requires
            self.at < self.candidates@.len(),
        ensures
            *r == self.candidates@[self.at as int],
    {
        &self.candidates[self.at]
    }

    /// Decides about the candidate, given whether the device that its shim reads from is still
    /// there. The round goes on to the next one, unless a shim is to be started.
    pub fn attend(&mut self, supervisor: &mut Supervisor, source_exists: bool) -> (r: CandidateStep)
        requires
            old(self).wf(*old(supervisor)),
            old(self).phase == RoundPhase::Attend,
        ensures
            final(self).wf(*final(supervisor)),
            is_considered(
                *old(supervisor),
                *final(supervisor),
                old(self).candidates@[old(self).at as int]@,
                source_exists,
                old(self).now_ns,
                r,
            ),
            !old(supervisor).managed@.contains_key(old(self).serial()) ==> (r is Start <==> !(old(
                supervisor,
            ).serial_states@.contains_key(old(self).serial()) && (old(
                supervisor,
            ).serial_states@[old(self).serial()].retry_after matches Some(until)
                && old(self).now_ns < until)) && !(old(supervisor).serial_states@.contains_key(
                old(self).serial(),
            ) && (old(
                supervisor,
            ).serial_states@[old(self).serial()].quarantined_until matches Some(until)
                && old(self).now_ns < until))),
            *final(self) == if r is Start {
                Round { phase: RoundPhase::Starting, ..*old(self) }
            } else {
                Round {
                    phase: phase_at(old(self).at + 1, old(self).candidates@.len() as int),
                    at: (old(self).at + 1) as usize,
                    ..*old(self)
                }
            },
    {
        let step = supervisor.consider(&self.candidates[self.at], source_exists, self.now_ns);
        match &step {
            CandidateStep::Start(_) => {
                self.phase = RoundPhase::Starting;
            },
            _ => {
                self.go_on();
            },
        }
        proof {
            assert forall|i: int| 0 <= i < self.at implies attended(
                *supervisor,
                (#[trigger] self.candidates@[i]).serial@,
            ) || (self.phase == RoundPhase::Starting && self.candidates@[i].serial@
                == self.serial()) by {
                if i < old(self).at {
                    assert(attended(*old(supervisor), old(self).candidates@[i].serial@));
                }
            }
        }
        step
    }

    fn go_on(&mut self)
        requires
            old(self).at < old(self).candidates@.len(),
        ensures
            final(self).at == old(self).at + 1,
            *final(self) == (Round {
                phase: phase_at(old(self).at + 1, old(self).candidates@.len() as int),
                at: (old(self).at + 1) as usize,
                ..*old(self)
            }),
    {
        assert(self.at < self.candidates.len());
        self.at += 1;
        self.phase = if self.at < self.candidates.len() {
            RoundPhase::Attend
        } else {
            RoundPhase::Finished
        };
    }

    /// Takes note of whether the shim of the candidate could be started. The round goes on to the
    /// next candidate. The time is the one after the try.
    pub fn start_tried(
        &mut self,
        supervisor: &mut Supervisor,
        config: &ServeConfig,
        result: Result<ManagedCamera, CamShimError>,
        now_ns: u64,
    )
        requires
            old(self).wf(*old(supervisor)),
            old(self).phase == RoundPhase::Starting,
        ensures
            final(self).wf(*final(supervisor)),
            *final(self) == (Round {
                phase: phase_at(old(self).at + 1, old(self).candidates@.len() as int),
                at: (old(self).at + 1) as usize,
                started: old(self).started || result is Ok,
                ..*old(self)
            }),
            start_noted(
                *old(supervisor),
                *final(supervisor),
                old(self).serial(),
                *config,
                result,
                now_ns,
            ),
            match result {
                Ok(camera) => {
                    &&& final(supervisor).managed@ == old(supervisor).managed@.insert(
                        old(self).serial(),
                        camera,
                    )
                    &&& final(supervisor).serial_states@ == old(
                        supervisor,
                    ).serial_states@.insert(old(self).serial(), fresh_state())
                },
                Err(_) => {
                    &&& final(supervisor).managed == old(supervisor).managed
                    &&& final(supervisor).serial_states@ == old(
                        supervisor,
                    ).serial_states@.insert(
                        old(self).serial(),
                        after_failure(
                            state_of(old(supervisor).serial_states@, old(self).serial()),
                            *config,
                            now_ns,
                        ),
                    )
                },
            },
    {
        match result {
            Ok(camera) => {
                supervisor.started(&self.candidates[self.at].serial, camera);
                self.started = true;
            },
            Err(_) => {
                supervisor.note_failure(&self.candidates[self.at].serial, config, now_ns);
            },
        }
        self.go_on();
        proof {
            assert forall|i: int| 0 <= i < self.at implies attended(
                *supervisor,
                (#[trigger] self.candidates@[i]).serial@,
            ) by {
                if i < old(self).at {
                    assert(attended(*old(supervisor), old(self).candidates@[i].serial@)
                        || old(self).candidates@[i].serial@ == old(self).serial());
                }
            }
        }
    }
}

/// When cameras are looked for, each camera whose worker failed in the round is without a shim and
/// has a failure on record.
pub proof fn lemma_failed_workers_are_on_record(round: Round, supervisor: Supervisor, i: int)
    requires
        round.wf(supervisor),
        round.phase == RoundPhase::Discover,
        0 <= i < round.reaped@.len(),
    ensures
        !supervisor.managed@.contains_key(round.reaped@[i].serial@),
        state_of(supervisor.serial_states@, round.reaped@[i].serial@).consecutive_failures >= 1,
{
    assert(attended(supervisor, round.reaped@[i].serial@));
}

/// At the end of a round every camera that needs a shim has one, or it has failed and waits for its
/// next try.
pub proof fn lemma_round_attends_to_all(round: Round, supervisor: Supervisor, serial: Seq<char>)
    requires
        round.wf(supervisor),
        round.phase == RoundPhase::Finished,
        has_candidate(candidate_views(round.candidates@), serial),
    ensures
        attended(supervisor, serial),
{
    let views = candidate_views(round.candidates@);
    let i = choose|i: int| 0 <= i < views.len() && (#[trigger] views[i]).0 == serial;
    assert(views[i] == round.candidates@[i]@);
    assert(attended(supervisor, round.candidates@[i].serial@));
}

} // verus!
