//! Relaying frames from a camera to a loopback device: the capture format, the pace, and what to do
//! when something fails.
use vstd::prelude::*;

use crate::compat::{
    is_native_fps, lists_rates, native_capture_fps_from_intervals, FpsRate, DEFAULT_MAX_CAPTURE_HEIGHT,
    DEFAULT_MAX_CAPTURE_WIDTH, DEFAULT_TARGET_FPS,
};
use crate::error::{CamShimError, IoFailure, IoKind};
use crate::loopback_output::{queue_would_wait, LoopbackOutput};
use crate::media::{Format, FourCC, FrameInterval, FrameSize, FrameSizeEnum, Metadata, StepwiseSize};
use crate::order::{
    as_positions, lemma_order_of_items, lemma_positions_in_range, picked, sorted_by, stable_order,
    SortKey,
};
use crate::split::{lemma_filter_nothing, lemma_filter_step};
use crate::sys::no_device_code;
use crate::text::{concat2, concat4, concat7, decimal, decimal_of};

verus! {

/// How often a camera is tried to be opened.
pub const OPEN_ATTEMPTS: u32 = 5;

/// The pause between two attempts to open a camera, in milliseconds.
pub const OPEN_RETRY_DELAY_MS: u64 = 200;

/// The longest sleep while waiting for the next frame, in nanoseconds: 2 ms.
pub const MAX_NAP_NS: u64 = 2_000_000;

/// What a shim runs with.
#[derive(Debug)]
pub struct ShimConfig {
    pub source_path: String,
    pub target_path: String,
    pub target_fps: u32,
    /// Wider capture modes are passed over.
    pub max_capture_width: u32,
    /// Taller capture modes are passed over.
    pub max_capture_height: u32,
}

/// What a shim runs with, if nothing else is said.
pub fn default_shim_config(source_path: String, target_path: String) -> (r: ShimConfig)
    ensures
        r.source_path == source_path,
        r.target_path == target_path,
        r.target_fps == 30,
        r.max_capture_width == 1920,
        r.max_capture_height == 1080,
{
    ShimConfig {
        source_path,
        target_path,
        target_fps: DEFAULT_TARGET_FPS,
        max_capture_width: DEFAULT_MAX_CAPTURE_WIDTH,
        max_capture_height: DEFAULT_MAX_CAPTURE_HEIGHT,
    }
}

/// The pace of the output: one frame per period of a steady clock, in nanoseconds.
#[derive(Debug)]
pub struct FramePacer {
    frame_period_ns: u64,
    next_tick_ns: u128,
}

/// What the pacer says.
#[derive(Debug, Clone, Copy, PartialEq, Eq, Structural)]
pub enum PacerStep {
    /// A frame is due.
    Tick,
    /// Sleep for so many nanoseconds, then ask again.
    Sleep(u64),
}

/// The time between two frames: a second over the rate, which counts as 1 if it is 0.
pub open spec fn period_ns(fps: u32) -> int {
    if fps == 0 {
        1_000_000_000
    } else {
        1_000_000_000int / fps as int
    }
}

impl FramePacer {
    /// The time between two frames.
    pub closed spec fn period(self) -> int {
        self.frame_period_ns as int
    }

    /// When the next frame is due.
    pub closed spec fn next_tick(self) -> int {
        self.next_tick_ns as int
    }

    /// A pacer whose first frame is due at once.
    pub fn new(fps: u32, now_ns: u64) -> (r: Self)
        ensures
            r.period() == period_ns(fps),
            r.next_tick() == now_ns,
    {
        let fps: u64 = if fps == 0 {
            1
        } else {
            fps as u64
        };
        FramePacer { frame_period_ns: 1_000_000_000 / fps, next_tick_ns: now_ns as u128 }
    }

    /// The time between two frames, in nanoseconds.
    pub fn frame_period(&self) -> (r: u64)
        ensures
            r == self.period(),
    {
        self.frame_period_ns
    }

    /// Asks whether a frame is due. Each frame that is due puts the next one a period later, so a
    /// slow loop does not make up for lost time with a burst.
    pub fn poll(&mut self, now_ns: u64) -> (r: PacerStep)
        ensures
            final(self).period() == old(self).period(),
            r == pacer_step(old(self).next_tick(), now_ns as int),
            final(self).next_tick() == tick_after(
                old(self).next_tick(),
                old(self).period(),
                now_ns as int,
            ),
            if now_ns >= old(self).next_tick() {
                &&& r == PacerStep::Tick
                &&& final(self).next_tick() == now_ns + old(self).period()
            } else {
                &&& final(self).next_tick() == old(self).next_tick()
                &&& r matches PacerStep::Sleep(ns) && ns == if old(self).next_tick() - now_ns
                    < MAX_NAP_NS {
                    old(self).next_tick() - now_ns
                } else {
                    MAX_NAP_NS as int
                }
            },
    {
        if now_ns as u128 >= self.next_tick_ns {
            self.next_tick_ns = now_ns as u128 + self.frame_period_ns as u128;
            return PacerStep::Tick;
        }
        let remaining: u128 = self.next_tick_ns - now_ns as u128;
        if remaining < MAX_NAP_NS as u128 {
            PacerStep::Sleep(remaining as u64)
        } else {
            PacerStep::Sleep(MAX_NAP_NS)
        }
    }
}

/// When the next frame is due after a pacer was asked at a time.
pub open spec fn tick_after(next: int, period: int, now: int) -> int {
    if now >= next {
        now + period
    } else {
        next
    }
}

/// When the next frame is due after a pacer was asked at the first `n` of a series of times.
pub open spec fn tick_by(start: int, period: int, times: Seq<int>, n: int) -> int
    decreases n,
{
    if n <= 0 {
        start
    } else {
        tick_after(tick_by(start, period, times, n - 1), period, times[n - 1])
    }
}

/// What a pacer says when it is asked at a time: a frame is due, or for how long to sleep.
pub open spec fn pacer_step(next: int, now: int) -> PacerStep {
    if now >= next {
        PacerStep::Tick
    } else if next - now < MAX_NAP_NS {
        PacerStep::Sleep((next - now) as u64)
    } else {
        PacerStep::Sleep(MAX_NAP_NS)
    }
}

/// A frame is due exactly when its time has come. Before that the pacer says to sleep, for 2 ms at
/// the most and never past the time of the frame.
pub proof fn lemma_frame_comes_when_due(next: int, period: int, now: int)
    requires
        0 <= now,
    ensures
        pacer_step(next, now) == PacerStep::Tick <==> now >= next,
        pacer_step(next, now) matches PacerStep::Sleep(ns) ==> 0 < ns <= 2_000_000 && now + ns
            <= next && (now + ns == next || ns == 2_000_000),
        now >= next ==> tick_after(next, period, now) == now + period,
        now < next ==> tick_after(next, period, now) == next,
{
}

/// No frame is held back: where the pacer is asked a period or more after the last frame, the next
/// one is due.
pub proof fn lemma_no_frame_is_held_back(
    start: int,
    period: int,
    times: Seq<int>,
    i: int,
    j: int,
)
    requires
        period >= 0,
        0 <= i < j < times.len(),
        pacer_step(tick_by(start, period, times, i), times[i]) == PacerStep::Tick,
        forall|k: int|
            i < k < j ==> pacer_step(tick_by(start, period, times, k), #[trigger] times[k])
                != PacerStep::Tick,
        times[j] >= times[i] + period,
    ensures
        pacer_step(tick_by(start, period, times, j), times[j]) == PacerStep::Tick,
{
    lemma_quiet_since(start, period, times, i, j);
}

proof fn lemma_quiet_since(start: int, period: int, times: Seq<int>, i: int, n: int)
    requires
        0 <= i < n <= times.len(),
        pacer_step(tick_by(start, period, times, i), times[i]) == PacerStep::Tick,
        forall|k: int|
            i < k < n ==> pacer_step(tick_by(start, period, times, k), #[trigger] times[k])
                != PacerStep::Tick,
    ensures
        tick_by(start, period, times, n) == times[i] + period,
    decreases n,
{
    if n - 1 > i {
        lemma_quiet_since(start, period, times, i, n - 1);
        assert(pacer_step(tick_by(start, period, times, n - 1), times[n - 1]) != PacerStep::Tick);
    }
}

/// As many frames as the rate says fit into a second, and with a longer period they would not be as
/// many: the period is the longest whole number of nanoseconds.
pub proof fn lemma_period_fits_rate(fps: u32)
    requires
        fps > 0,
    ensures
        fps * period_ns(fps) <= 1_000_000_000 < fps * (period_ns(fps) + 1),
        period_ns(0) == 1_000_000_000,
{
    let n = fps as int;
    let q = 1_000_000_000int / n;
    vstd::arithmetic::div_mod::lemma_fundamental_div_mod(1_000_000_000, n);
    vstd::arithmetic::div_mod::lemma_mod_bound(1_000_000_000, n);
    assert(n * (q + 1) == n * q + n) by (nonlinear_arith);
}

/// Two frames are never closer together than the period, however slow the loop is.
pub proof fn lemma_frames_are_paced(start: int, period: int, times: Seq<int>, i: int, j: int)
    requires
        period >= 0,
        0 <= i < j < times.len(),
        forall|a: int, b: int| 0 <= a < b < times.len() ==> #[trigger] times[a] <= #[trigger] times[b],
        times[i] >= tick_by(start, period, times, i),
        times[j] >= tick_by(start, period, times, j),
    ensures
        times[j] - times[i] >= period,
{
    lemma_tick_is_later(start, period, times, i, j);
}

proof fn lemma_tick_is_later(start: int, period: int, times: Seq<int>, i: int, n: int)
    requires
        period >= 0,
        0 <= i < n <= times.len(),
        forall|a: int, b: int| 0 <= a < b < times.len() ==> #[trigger] times[a] <= #[trigger] times[b],
        times[i] >= tick_by(start, period, times, i),
    ensures
        tick_by(start, period, times, n) >= times[i] + period,
    decreases n,
{
    if n - 1 > i {
        lemma_tick_is_later(start, period, times, i, n - 1);
        assert(times[i] <= times[n - 1]);
    }
}

/// The largest capture mode that is taken.
#[derive(Debug, Clone, Copy)]
pub struct CaptureLimits {
    pub max_width: u32,
    pub max_height: u32,
}

/// A frame size is within the limits.
pub open spec fn within(limits: CaptureLimits) -> spec_fn((u32, u32)) -> bool {
    |size: (u32, u32)| size.0 <= limits.max_width && size.1 <= limits.max_height
}

/// Whether a frame size is within the limits.
pub fn resolution_within_cap(width: u32, height: u32, limits: CaptureLimits) -> (r: bool)
    ensures
        r == within(limits)((width, height)),
{
    width <= limits.max_width && height <= limits.max_height
}

/// The step of a range: at least 1.
pub open spec fn step_of(step: u32) -> int {
    if step == 0 {
        1
    } else {
        step as int
    }
}

/// A value lies in a range and on one of its steps.
pub open spec fn on_step(value: int, min: int, max: int, step: int) -> bool {
    min <= value <= max && (value - min) % step == 0
}

/// The frame size is one of a range.
pub open spec fn in_range(range: StepwiseSize, size: (u32, u32)) -> bool {
    &&& on_step(
        size.0 as int,
        range.min_width as int,
        range.max_width as int,
        step_of(range.step_width),
    )
    &&& on_step(
        size.1 as int,
        range.min_height as int,
        range.max_height as int,
        step_of(range.step_height),
    )
}

/// The frame size is one that is offered.
pub open spec fn offers_size(offer: FrameSizeEnum, size: (u32, u32)) -> bool {
    match offer {
        FrameSizeEnum::Discrete(discrete) => size == (discrete.width, discrete.height),
        FrameSizeEnum::Stepwise(range) => in_range(range, size),
    }
}

/// The frame size is among those that are offered.
pub open spec fn offered(sizes: Seq<FrameSize>, size: (u32, u32)) -> bool {
    exists|i: int| 0 <= i < sizes.len() && offers_size((#[trigger] sizes[i]).size, size)
}

/// Sizes by width, then by height.
pub open spec fn size_before(a: (u32, u32), b: (u32, u32)) -> bool {
    a.0 < b.0 || a.0 == b.0 && a.1 < b.1
}

/// Every size comes before those that follow it.
pub open spec fn sizes_sorted(list: Seq<(u32, u32)>) -> bool {
    forall|i: int, j: int|
        0 <= i < j < list.len() ==> size_before(#[trigger] list[i], #[trigger] list[j])
}

/// The list holds the sizes that are offered, each once, by width and height.
pub open spec fn lists_sizes(list: Seq<(u32, u32)>, sizes: Seq<FrameSize>) -> bool {
    &&& sizes_sorted(list)
    &&& forall|size: (u32, u32)| #[trigger] list.contains(size) <==> offered(sizes, size)
}

/// Merges two sorted lists.
fn merge_sizes(a: &Vec<(u32, u32)>, b: &Vec<(u32, u32)>) -> (r: Vec<(u32, u32)>)
    requires
        sizes_sorted(a@),
        sizes_sorted(b@),
    ensures
        sizes_sorted(r@),
        forall|size: (u32, u32)| #[trigger]
            r@.contains(size) <==> a@.contains(size) || b@.contains(size),
{
    let mut out: Vec<(u32, u32)> = Vec::new();
    let mut i: usize = 0;
    let mut j: usize = 0;
    while i < a.len() || j < b.len()
        invariant
            sizes_sorted(a@),
            sizes_sorted(b@),
            i <= a@.len(),
            j <= b@.len(),
            sizes_sorted(out@),
            forall|k: int, l: int|
                0 <= k < out@.len() && i <= l < a@.len() ==> size_before(
                    #[trigger] out@[k],
                    #[trigger] a@[l],
                ),
            forall|k: int, l: int|
                0 <= k < out@.len() && j <= l < b@.len() ==> size_before(
                    #[trigger] out@[k],
                    #[trigger] b@[l],
                ),
            forall|k: int| 0 <= k < i ==> out@.contains(#[trigger] a@[k]),
            forall|k: int| 0 <= k < j ==> out@.contains(#[trigger] b@[k]),
            forall|k: int|
                0 <= k < out@.len() ==> a@.contains(#[trigger] out@[k]) || b@.contains(out@[k]),
        decreases a@.len() - i + b@.len() - j,
    {
        let ghost before = out@;
        let take_a = i < a.len() && (j >= b.len() || (a[i].0 < b[j].0 || (a[i].0 == b[j].0 && a[i].1
            <= b[j].1)));
        let take_b = j < b.len() && (i >= a.len() || (b[j].0 < a[i].0 || (b[j].0 == a[i].0 && b[j].1
            <= a[i].1)));
        let item = if take_a {
            a[i]
        } else {
            b[j]
        };
        out.push(item);
        let ghost was_i = i as int;
        let ghost was_j = j as int;
        if take_a {
            i += 1;
        }
        if take_b {
            j += 1;
        }
        proof {
            assert(out@[before.len() as int] == item);
            assert forall|k: int| 0 <= k < i implies out@.contains(#[trigger] a@[k]) by {
                if k < was_i {
                    let at = choose|at: int| 0 <= at < before.len() && before[at] == a@[k];
                    assert(out@[at] == a@[k]);
                } else {
                    assert(a@[k] == item);
                }
            }
            assert forall|k: int| 0 <= k < j implies out@.contains(#[trigger] b@[k]) by {
                if k < was_j {
                    let at = choose|at: int| 0 <= at < before.len() && before[at] == b@[k];
                    assert(out@[at] == b@[k]);
                } else {
                    assert(b@[k] == item);
                }
            }
            if take_a {
                assert(a@.contains(a@[was_i]));
            } else {
                assert(b@.contains(b@[was_j]));
            }
        }
    }
    assert forall|size: (u32, u32)| #[trigger] out@.contains(size) <==> a@.contains(size)
        || b@.contains(size) by {
        if out@.contains(size) {
            let k = choose|k: int| 0 <= k < out@.len() && out@[k] == size;
            assert(a@.contains(out@[k]) || b@.contains(out@[k]));
        }
        if a@.contains(size) {
            let k = choose|k: int| 0 <= k < a@.len() && a@[k] == size;
            assert(out@.contains(a@[k]));
        }
        if b@.contains(size) {
            let k = choose|k: int| 0 <= k < b@.len() && b@[k] == size;
            assert(out@.contains(b@[k]));
        }
    }
    out
}

/// The next value on a step is a step on.
proof fn lemma_next_step(value: int, min: int, max: int, step: int, other: int)
    requires
        step > 0,
        min <= value,
        (value - min) % step == 0,
    ensures
        (value + step - min) % step == 0,
        on_step(other, min, max, step) && value < other ==> value + step <= other,
{
    vstd::arithmetic::div_mod::lemma_mod_add_multiples_vanish(value - min, step);
    assert(value - min + step == step + (value - min));
    if on_step(other, min, max, step) && value < other {
        let d = other - value;
        vstd::arithmetic::div_mod::lemma_sub_mod_noop(other - min, value - min, step);
        vstd::arithmetic::div_mod::lemma_small_mod(0, step as nat);
        assert(((other - min) - (value - min)) % step == 0);
        assert(d % step == 0);
        if d < step {
            vstd::arithmetic::div_mod::lemma_small_mod(d as nat, step as nat);
        }
    }
}

/// The values of a range, from the lowest up.
fn range_values(min: u32, max: u32, step: u32) -> (r: Vec<u32>)
    ensures
        forall|i: int, j: int| 0 <= i < j < r@.len() ==> #[trigger] r@[i] < #[trigger] r@[j],
        forall|value: u32| #[trigger]
            r@.contains(value) <==> on_step(value as int, min as int, max as int, step_of(step)),
{
    let by: u64 = if step == 0 {
        1
    } else {
        step as u64
    };
    let ghost lo = min as int;
    let ghost hi = max as int;
    let ghost st = step_of(step);
    let mut out: Vec<u32> = Vec::new();
    let mut value: u64 = min as u64;
    assert((lo - lo) % st == 0) by {
        vstd::arithmetic::div_mod::lemma_small_mod(0, st as nat);
    }
    while value <= max as u64
        invariant
            by == st,
            st == step_of(step),
            st > 0,
            lo == min,
            hi == max,
            lo <= value <= 0x1_FFFF_FFFE,
            by <= 0xFFFF_FFFF,
            (value - lo) % st == 0,
            forall|i: int, j: int| 0 <= i < j < out@.len() ==> #[trigger] out@[i] < #[trigger] out@[j],
            forall|i: int| 0 <= i < out@.len() ==> (#[trigger] out@[i]) < value,
            forall|i: int| 0 <= i < out@.len() ==> on_step((#[trigger] out@[i]) as int, lo, hi, st),
            forall|other: u32|
                on_step(other as int, lo, hi, st) && other < value ==> #[trigger] out@.contains(
                    other,
                ),
        decreases 0x1_FFFF_FFFF - value,
    {
        let ghost before = out@;
        let ghost at = value as int;
        proof {
            lemma_next_step(at, lo, hi, st, at);
        }
        out.push(value as u32);
        value += by;
        proof {
            assert(out@[before.len() as int] == at);
            assert forall|other: u32|
                on_step(other as int, lo, hi, st) && other < value implies #[trigger] out@.contains(
                other,
            ) by {
                if other < at {
                    assert(before.contains(other));
                    let k = choose|k: int| 0 <= k < before.len() && before[k] == other;
                    assert(out@[k] == other);
                } else if other > at {
                    lemma_next_step(at, lo, hi, st, other as int);
                }
            }
        }
    }
    assert forall|v: u32| #[trigger] out@.contains(v) <==> on_step(v as int, lo, hi, st) by {
        if out@.contains(v) {
            let k = choose|k: int| 0 <= k < out@.len() && out@[k] == v;
            assert(on_step(out@[k] as int, lo, hi, st));
        }
    }
    out
}

/// The sizes of a range, by width and height.
fn range_sizes(range: StepwiseSize) -> (r: Vec<(u32, u32)>)
    ensures
        sizes_sorted(r@),
        forall|size: (u32, u32)| #[trigger] r@.contains(size) <==> in_range(range, size),
{
    let widths = range_values(range.min_width, range.max_width, range.step_width);
    let heights = range_values(range.min_height, range.max_height, range.step_height);
    let mut out: Vec<(u32, u32)> = Vec::new();
    let mut i: usize = 0;
    while i < widths.len()
        invariant
            i <= widths@.len(),
            forall|a: int, b: int|
                0 <= a < b < widths@.len() ==> #[trigger] widths@[a] < #[trigger] widths@[b],
            forall|a: int, b: int|
                0 <= a < b < heights@.len() ==> #[trigger] heights@[a] < #[trigger] heights@[b],
            sizes_sorted(out@),
            forall|k: int|
                0 <= k < out@.len() ==> widths@.take(i as int).contains((#[trigger] out@[k]).0)
                    && heights@.contains(out@[k].1),
            forall|a: int, b: int|
                0 <= a < i && 0 <= b < heights@.len() ==> out@.contains(
                    (#[trigger] widths@[a], #[trigger] heights@[b]),
                ),
        decreases widths@.len() - i,
    {
        let ghost start = out@;
        let ghost w = widths@[i as int];
        let mut j: usize = 0;
        proof {
            assert(widths@.take(i + 1) =~= widths@.take(i as int).push(w));
            assert forall|k: int| 0 <= k < start.len() implies (#[trigger] start[k]).0 < w
                && widths@.take(i + 1).contains(start[k].0) by {
                let a = choose|a: int|
                    0 <= a < i && widths@.take(i as int)[a] == start[k].0;
                assert(widths@[a] < w);
                assert(widths@.take(i + 1)[a] == start[k].0);
            }
            assert(widths@.take(i + 1)[i as int] == w);
        }
        while j < heights.len()
            invariant
                i < widths@.len(),
                w == widths@[i as int],
                j <= heights@.len(),
                forall|a: int, b: int|
                    0 <= a < b < heights@.len() ==> #[trigger] heights@[a] < #[trigger] heights@[b],
                out@.len() == start.len() + j,
                forall|k: int| 0 <= k < start.len() ==> #[trigger] out@[k] == start[k],
                forall|k: int| 0 <= k < j ==> out@[start.len() + k] == (w, #[trigger] heights@[k]),
                forall|k: int| 0 <= k < start.len() ==> (#[trigger] start[k]).0 < w,
                sizes_sorted(out@),
            decreases heights@.len() - j,
        {
            let ghost before = out@;
            out.push((widths[i], heights[j]));
            proof {
                let n = before.len() as int;
                assert forall|a: int, b: int| 0 <= a < b < out@.len() implies size_before(
                    #[trigger] out@[a],
                    #[trigger] out@[b],
                ) by {
                    if b == n {
                        if a < start.len() {
                            assert(out@[a] == start[a]);
                        } else {
                            let k = a - start.len();
                            assert(before[start.len() + k] == (w, heights@[k]));
                            assert(heights@[k] < heights@[j as int]);
                        }
                    } else {
                        assert(size_before(before[a], before[b]));
                    }
                }
            }
            j += 1;
        }
        proof {
            assert forall|k: int| 0 <= k < out@.len() implies widths@.take(i + 1).contains(
                (#[trigger] out@[k]).0,
            ) && heights@.contains(out@[k].1) by {
                if k < start.len() {
                    assert(out@[k] == start[k]);
                } else {
                    let b = k - start.len();
                    assert(out@[start.len() + b] == (w, heights@[b]));
                    assert(heights@.contains(heights@[b]));
                }
            }
            assert forall|a: int, b: int|
                0 <= a < i + 1 && 0 <= b < heights@.len() implies out@.contains(
                (#[trigger] widths@[a], #[trigger] heights@[b]),
            ) by {
                if a < i {
                    assert(start.contains((widths@[a], heights@[b])));
                    let k = choose|k: int|
                        0 <= k < start.len() && start[k] == (widths@[a], heights@[b]);
                    assert(out@[k] == start[k]);
                } else {
                    assert(out@[start.len() + b] == (w, heights@[b]));
                }
            }
        }
        i += 1;
    }
    assert(widths@.take(i as int) =~= widths@);
    assert forall|size: (u32, u32)| #[trigger] out@.contains(size) <==> in_range(range, size) by {
        if out@.contains(size) {
            let k = choose|k: int| 0 <= k < out@.len() && out@[k] == size;
            assert(widths@.contains(out@[k].0) && heights@.contains(out@[k].1));
        }
        if in_range(range, size) {
            assert(widths@.contains(size.0) && heights@.contains(size.1));
            let a = choose|a: int| 0 <= a < widths@.len() && widths@[a] == size.0;
            let b = choose|b: int| 0 <= b < heights@.len() && heights@[b] == size.1;
            assert(out@.contains((widths@[a], heights@[b])));
        }
    }
    out
}

/// The frame sizes that are offered, each once, by width and height.
pub fn discrete_sizes(sizes: &[FrameSize]) -> (r: Vec<(u32, u32)>)
    ensures
        lists_sizes(r@, sizes@),
{
    let mut out: Vec<(u32, u32)> = Vec::new();
    let mut i: usize = 0;
    assert(lists_sizes(out@, sizes@.take(0)));
    while i < sizes.len()
        invariant
            i <= sizes@.len(),
            lists_sizes(out@, sizes@.take(i as int)),
        decreases sizes@.len() - i,
    {
        let ghost before = out@;
        let ghost offer = sizes@[i as int].size;
        let more: Vec<(u32, u32)> = match sizes[i].size {
            FrameSizeEnum::Discrete(discrete) => {
                let mut one: Vec<(u32, u32)> = Vec::new();
                one.push((discrete.width, discrete.height));
                assert(one@[0] == (discrete.width, discrete.height));
                one
            },
            FrameSizeEnum::Stepwise(range) => range_sizes(range),
        };
        assert(forall|size: (u32, u32)| #[trigger]
            more@.contains(size) <==> offers_size(offer, size));
        out = merge_sizes(&out, &more);
        proof {
            let seen = sizes@.take(i as int);
            let next = sizes@.take(i + 1);
            assert forall|size: (u32, u32)| #[trigger] out@.contains(size) <==> offered(
                next,
                size,
            ) by {
                if before.contains(size) {
                    assert(offered(seen, size));
                    let k = choose|k: int|
                        0 <= k < seen.len() && offers_size((#[trigger] seen[k]).size, size);
                    assert(offers_size(next[k].size, size));
                }
                if more@.contains(size) {
                    assert(offers_size(next[i as int].size, size));
                }
                if offered(next, size) {
                    let k = choose|k: int|
                        0 <= k < next.len() && offers_size((#[trigger] next[k]).size, size);
                    if k < i {
                        assert(offers_size(seen[k].size, size));
                        assert(before.contains(size));
                    } else {
                        assert(more@.contains(size));
                    }
                }
            }
        }
        i += 1;
    }
    assert(sizes@.take(i as int) =~= sizes@);
    out
}

/// What capture modes are ranked by: the larger area first, then the larger width.
#[derive(Debug, Clone, Copy)]
pub struct SizeKey {
    pub area: u64,
    pub width: u32,
}

impl SortKey for SizeKey {
    open spec fn before(self, other: Self) -> bool {
        self.area > other.area || self.area == other.area && self.width > other.width
    }

    proof fn before_transitive(a: Self, b: Self, c: Self) {
    }

    proof fn before_negative(a: Self, b: Self, c: Self) {
    }

    fn is_before(&self, other: &Self) -> (r: bool) {
        self.area > other.area || (self.area == other.area && self.width > other.width)
    }
}

/// The larger mode comes first.
pub open spec fn larger_first() -> spec_fn((u32, u32), (u32, u32)) -> bool {
    |a: (u32, u32), b: (u32, u32)|
        a.0 * a.1 > b.0 * b.1 || a.0 * a.1 == b.0 * b.1 && a.0 > b.0
}

/// The modes that are tried: those offered within the limits, the largest first.
pub open spec fn are_modes(
    sizes: Seq<FrameSize>,
    limits: CaptureLimits,
    modes: Seq<(u32, u32)>,
) -> bool {
    exists|list: Seq<(u32, u32)>| #[trigger]
        lists_sizes(list, sizes) && sorted_by(list.filter(within(limits)), modes, larger_first())
}

/// The capture modes within the limits, the largest first.
pub fn pick_sizes_sorted(sizes: &[FrameSize], limits: CaptureLimits) -> (r: Vec<(u32, u32)>)
    ensures
        are_modes(sizes@, limits, r@),
{
    let list = discrete_sizes(sizes);
    let ghost p = within(limits);
    let mut kept: Vec<(u32, u32)> = Vec::new();
    let mut keys: Vec<SizeKey> = Vec::new();
    let mut i: usize = 0;
    proof {
        lemma_filter_nothing(list@, p);
    }
    while i < list.len()
        invariant
            i <= list@.len(),
            p == within(limits),
            kept@ == list@.take(i as int).filter(p),
            keys@.len() == kept@.len(),
            forall|k: int|
                0 <= k < keys@.len() ==> (#[trigger] keys@[k]).area == kept@[k].0 * kept@[k].1
                    && keys@[k].width == kept@[k].0,
        decreases list@.len() - i,
    {
        proof {
            lemma_filter_step(list@, p, i as int);
        }
        let (width, height) = list[i];
        if resolution_within_cap(width, height, limits) {
            assert(width as u64 * height as u64 <= 0xFFFF_FFFFu64 * 0xFFFF_FFFFu64)
                by (nonlinear_arith)
                requires
                    width <= 0xFFFF_FFFF,
                    height <= 0xFFFF_FFFF,
            ;
            kept.push((width, height));
            keys.push(SizeKey { area: width as u64 * height as u64, width });
        }
        i += 1;
    }
    proof {
        lemma_filter_nothing(list@, p);
    }
    let order = stable_order(&keys);
    proof {
        lemma_order_of_items(keys@, kept@, larger_first(), as_positions(order@));
        lemma_positions_in_range(kept@, larger_first(), order@);
    }
    let mut out: Vec<(u32, u32)> = Vec::new();
    let mut k: usize = 0;
    while k < order.len()
        invariant
            k <= order@.len(),
            forall|i: int| 0 <= i < order@.len() ==> #[trigger] order@[i] < kept@.len(),
            out@ == picked(kept@, as_positions(order@)).take(k as int),
        decreases order@.len() - k,
    {
        out.push(kept[order[k]]);
        assert(out@ =~= picked(kept@, as_positions(order@)).take(k + 1));
        k += 1;
    }
    assert(out@ =~= picked(kept@, as_positions(order@)));
    out
}

/// The mode that is tried first is the largest one that is offered within the limits.
pub proof fn lemma_largest_mode_first(
    sizes: Seq<FrameSize>,
    limits: CaptureLimits,
    modes: Seq<(u32, u32)>,
    size: (u32, u32),
)
    requires
        are_modes(sizes, limits, modes),
        offered(sizes, size),
        within(limits)(size),
    ensures
        modes.len() > 0,
        offered(sizes, modes[0]),
        within(limits)(modes[0]),
        modes[0].0 * modes[0].1 >= size.0 * size.1,
{
    broadcast use vstd::seq_lib::group_filter_ensures;

    let list = choose|list: Seq<(u32, u32)>| #[trigger]
        lists_sizes(list, sizes) && sorted_by(list.filter(within(limits)), modes, larger_first());
    let kept = list.filter(within(limits));
    assert(list.contains(size));
    let at = choose|at: int| 0 <= at < list.len() && list[at] == size;
    assert(kept.contains(list[at]));
    let k = choose|k: int| 0 <= k < kept.len() && kept[k] == size;
    let order = choose|order: Seq<int>| #[trigger]
        crate::order::is_stable_order(kept, larger_first(), order) && modes == picked(kept, order);
    crate::order::lemma_order_covers(kept, larger_first(), order, k);
    let m = choose|m: int| 0 <= m < order.len() && order[m] == k;
    assert(modes[m] == size);
    if m > 0 {
        assert(crate::order::precedes(kept, larger_first(), order[0], order[m]));
    }
    let first = kept[order[0]];
    assert(modes[0] == first);
    assert(kept.contains(first));
    list.lemma_filter_contains_rev(within(limits), first);
    assert(within(limits)(first));
    assert(offered(sizes, first));
}

/// The modes that are tried are the frame sizes that are offered and neither too wide nor too high,
/// each once, and none comes after a smaller one.
pub proof fn lemma_modes_are_those_within(
    sizes: Seq<FrameSize>,
    limits: CaptureLimits,
    modes: Seq<(u32, u32)>,
    size: (u32, u32),
    i: int,
    j: int,
)
    requires
        are_modes(sizes, limits, modes),
    ensures
        modes.contains(size) <==> {
            &&& size.0 <= limits.max_width
            &&& size.1 <= limits.max_height
            &&& exists|k: int| 0 <= k < sizes.len() && has_size(#[trigger] sizes[k], size)
        },
        0 <= i < j < modes.len() ==> modes[i].0 * modes[i].1 >= modes[j].0 * modes[j].1 && (
        modes[i].0 * modes[i].1 == modes[j].0 * modes[j].1 ==> modes[i].0 >= modes[j].0),
        0 <= i < j < modes.len() ==> modes[i] != modes[j],
{
    let list = choose|list: Seq<(u32, u32)>| #[trigger]
        lists_sizes(list, sizes) && sorted_by(list.filter(within(limits)), modes, larger_first());
    let kept = list.filter(within(limits));
    crate::order::lemma_sorted_members(kept, modes, larger_first(), size);
    crate::split::lemma_filter_members(list, within(limits), size);
    assert(list.contains(size) <==> offered(sizes, size));
    assert forall|k: int| 0 <= k < sizes.len() implies has_size(#[trigger] sizes[k], size)
        == offers_size(sizes[k].size, size) by {
        lemma_range_steps(sizes[k], size);
    }
    if offered(sizes, size) {
        let k = choose|k: int|
            0 <= k < sizes.len() && offers_size((#[trigger] sizes[k]).size, size);
        assert(has_size(sizes[k], size));
    }
    if exists|k: int| 0 <= k < sizes.len() && has_size(#[trigger] sizes[k], size) {
        let k = choose|k: int| 0 <= k < sizes.len() && has_size(#[trigger] sizes[k], size);
        assert(offers_size(sizes[k].size, size));
    }
    if 0 <= i < j < modes.len() {
        crate::order::lemma_sorted_in_order(kept, modes, larger_first(), i, j);
        if modes[i] == modes[j] {
            lemma_listed_once(sizes, limits, list);
            let order = choose|order: Seq<int>| #[trigger]
                crate::order::is_stable_order(kept, larger_first(), order) && modes == picked(
                    kept,
                    order,
                );
            crate::order::lemma_order_distinct(kept, larger_first(), order);
            assert(kept[order[i]] == kept[order[j]]);
            assert(order[i] != order[j]);
        }
    }
}

/// A frame size that is offered: the one that is named, or one that is a number of steps up from the
/// smallest one and no larger than the largest one.
pub open spec fn has_size(offer: FrameSize, size: (u32, u32)) -> bool {
    match offer.size {
        FrameSizeEnum::Discrete(discrete) => discrete.width == size.0 && discrete.height == size.1,
        FrameSizeEnum::Stepwise(range) => {
            &&& size.0 <= range.max_width && size.1 <= range.max_height
            &&& steps_up(range.min_width as int, range.step_width as int, size.0 as int)
            &&& steps_up(range.min_height as int, range.step_height as int, size.1 as int)
        },
    }
}

/// A value is a number of steps above another; without a step every value from there on is.
pub open spec fn steps_up(min: int, step: int, value: int) -> bool {
    if step == 0 {
        value >= min
    } else {
        exists|k: int| k >= 0 && value == min + #[trigger] (k * step)
    }
}

proof fn lemma_range_steps(offer: FrameSize, size: (u32, u32))
    ensures
        has_size(offer, size) == offers_size(offer.size, size),
{
    if let FrameSizeEnum::Stepwise(range) = offer.size {
        lemma_on_step(range.min_width as int, range.step_width, size.0 as int);
        lemma_on_step(range.min_height as int, range.step_height, size.1 as int);
    }
}

proof fn lemma_on_step(min: int, step: u32, value: int)
    ensures
        steps_up(min, step as int, value) <==> min <= value && (value - min) % step_of(step) == 0,
{
    let by = step_of(step);
    if step != 0 && steps_up(min, step as int, value) {
        let k = choose|k: int| k >= 0 && value == min + #[trigger] (k * by);
        vstd::arithmetic::div_mod::lemma_mod_multiples_basic(k, by);
        assert(k * by >= 0) by (nonlinear_arith)
            requires
                k >= 0,
                by > 0,
        ;
        assert(value - min == k * by);
    }
    if step != 0 && min <= value && (value - min) % by == 0 {
        let d = value - min;
        let k = d / by;
        vstd::arithmetic::div_mod::lemma_fundamental_div_mod(d, by);
        vstd::arithmetic::div_mod::lemma_div_pos_is_pos(d, by);
        assert(by * k == k * by) by (nonlinear_arith);
        assert(k >= 0 && value == min + (k * by));
    }
}

/// No size is kept twice.
proof fn lemma_listed_once(sizes: Seq<FrameSize>, limits: CaptureLimits, list: Seq<(u32, u32)>)
    requires
        lists_sizes(list, sizes),
    ensures
        forall|a: int, b: int|
            0 <= a < list.filter(within(limits)).len() && 0 <= b < list.filter(within(limits)).len()
                && a != b ==> list.filter(within(limits))[a] != list.filter(within(limits))[b],
{
    assert forall|a: int, b: int| 0 <= a < list.len() && 0 <= b < list.len() && a != b implies list[a]
        != list[b] by {
        if a < b {
            assert(size_before(list[a], list[b]));
        } else {
            assert(size_before(list[b], list[a]));
        }
    }
    assert(list.no_duplicates());
    lemma_filter_distinct(list, within(limits));
}

proof fn lemma_filter_distinct(list: Seq<(u32, u32)>, p: spec_fn((u32, u32)) -> bool)
    requires
        list.no_duplicates(),
    ensures
        list.filter(p).no_duplicates(),
    decreases list.len(),
{
    reveal(Seq::filter);
    if list.len() > 0 {
        let rest = list.drop_last();
        assert(rest.no_duplicates());
        lemma_filter_distinct(rest, p);
        let kept = rest.filter(p);
        if p(list.last()) {
            assert forall|a: int| 0 <= a < kept.len() implies #[trigger] kept[a] != list.last() by {
                assert(kept.contains(kept[a]));
                crate::split::lemma_filter_members(rest, p, kept[a]);
                let k = choose|k: int| 0 <= k < rest.len() && rest[k] == kept[a];
                assert(list[k] != list[list.len() - 1]);
            }
        }
    }
}

/// The modes that are tried where a camera names none within the limits.
pub open spec fn fallback_modes() -> Seq<(u32, u32)> {
    seq![(1920u32, 1080u32), (1280u32, 720u32), (1280u32, 960u32), (640u32, 480u32)]
}

/// The fallback modes within the limits.
pub fn fallback_sizes(limits: CaptureLimits) -> (r: Vec<(u32, u32)>)
    ensures
        r@ == fallback_modes().filter(within(limits)),
{
    let mut all: Vec<(u32, u32)> = Vec::new();
    all.push((1920, 1080));
    all.push((1280, 720));
    all.push((1280, 960));
    all.push((640, 480));
    assert(all@ =~= fallback_modes());
    let ghost p = within(limits);
    let mut out: Vec<(u32, u32)> = Vec::new();
    let mut i: usize = 0;
    proof {
        lemma_filter_nothing(all@, p);
    }
    while i < all.len()
        invariant
            i <= all@.len(),
            p == within(limits),
            out@ == all@.take(i as int).filter(p),
        decreases all@.len() - i,
    {
        proof {
            lemma_filter_step(all@, p, i as int);
        }
        let (width, height) = all[i];
        if resolution_within_cap(width, height, limits) {
            out.push((width, height));
        }
        i += 1;
    }
    proof {
        lemma_filter_nothing(all@, p);
    }
    out
}

/// The pixel formats that hold compressed images.
pub open spec fn compressed(fourcc: FourCC) -> bool {
    ||| fourcc.repr@ == seq![77u8, 74u8, 80u8, 71u8]
    ||| fourcc.repr@ == seq![74u8, 80u8, 69u8, 71u8]
    ||| fourcc.repr@ == seq![72u8, 50u8, 54u8, 52u8]
    ||| fourcc.repr@ == seq![72u8, 69u8, 86u8, 67u8]
    ||| fourcc.repr@ == seq![77u8, 80u8, 69u8, 71u8]
    ||| fourcc.repr@ == seq![77u8, 80u8, 71u8, 49u8]
    ||| fourcc.repr@ == seq![77u8, 80u8, 71u8, 50u8]
    ||| fourcc.repr@ == seq![77u8, 80u8, 71u8, 52u8]
}

fn has_code(fourcc: FourCC, a: u8, b: u8, c: u8, d: u8) -> (r: bool)
    ensures
        r == (fourcc.repr@ == seq![a, b, c, d]),
{
    let r = fourcc.repr[0] == a && fourcc.repr[1] == b && fourcc.repr[2] == c && fourcc.repr[3] == d;
    proof {
        if r {
            assert(fourcc.repr@ =~= seq![a, b, c, d]);
        }
    }
    r
}

/// Whether a pixel format holds compressed images: `MJPG`, `JPEG`, `H264`, `HEVC`, `MPEG`, `MPG1`,
/// `MPG2` or `MPG4`.
pub fn is_compressed(fourcc: FourCC) -> (r: bool)
    ensures
        r == compressed(fourcc),
{
    has_code(fourcc, 77, 74, 80, 71) || has_code(fourcc, 74, 80, 69, 71) || has_code(
        fourcc,
        72,
        50,
        54,
        52,
    ) || has_code(fourcc, 72, 69, 86, 67) || has_code(fourcc, 77, 80, 69, 71) || has_code(
        fourcc,
        77,
        80,
        71,
        49,
    ) || has_code(fourcc, 77, 80, 71, 50) || has_code(fourcc, 77, 80, 71, 52)
}

/// Compressed formats, as a predicate.
pub open spec fn is_compressed_format() -> spec_fn(FourCC) -> bool {
    |fourcc: FourCC| compressed(fourcc)
}

/// The format to capture in: MJPEG where the camera has it, else the current format if it is
/// compressed, else the first compressed format that is offered, else the current one.
pub open spec fn is_capture_format(
    current: FourCC,
    has_mjpeg: bool,
    offered: Seq<FourCC>,
    r: FourCC,
) -> bool {
    let at = crate::split::first_where(offered, is_compressed_format());
    if has_mjpeg {
        r.repr@ == seq![77u8, 74u8, 80u8, 71u8]
    } else if compressed(current) || at >= offered.len() {
        r == current
    } else {
        r == offered[at]
    }
}

/// Picks the format to capture in, from the current format, whether the camera has frame sizes in
/// MJPEG, and the formats that it offers.
pub fn pick_capture_fourcc(current: FourCC, has_mjpeg: bool, offered: &Vec<FourCC>) -> (r: FourCC)
    ensures
        is_capture_format(current, has_mjpeg, offered@, r),
        has_mjpeg ==> r.repr@ == seq![77u8, 74u8, 80u8, 71u8],
        !compressed(r) ==> !has_mjpeg && !compressed(current) && r == current && forall|i: int|
            0 <= i < offered@.len() ==> !compressed(#[trigger] offered@[i]),
        compressed(current) && !has_mjpeg ==> r == current,
        r == current || r.repr@ == seq![77u8, 74u8, 80u8, 71u8] || offered@.contains(r),
{
    if has_mjpeg {
        let mjpeg: [u8; 4] = [77, 74, 80, 71];
        assert(mjpeg@ =~= seq![77u8, 74u8, 80u8, 71u8]);
        return FourCC::new(&mjpeg);
    }
    if is_compressed(current) {
        return current;
    }
    let mut i: usize = 0;
    while i < offered.len()
        invariant
            i <= offered@.len(),
            !has_mjpeg,
            !compressed(current),
            forall|j: int| 0 <= j < i ==> !is_compressed_format()(#[trigger] offered@[j]),
        decreases offered@.len() - i,
    {
        if is_compressed(offered[i]) {
            proof {
                crate::split::lemma_first_where(offered@, is_compressed_format(), i as int);
            }
            return offered[i];
        }
        i += 1;
    }
    proof {
        crate::split::lemma_first_where(offered@, is_compressed_format(), i as int);
    }
    current
}

/// The format to capture in is MJPEG wherever the camera has it, whatever its current format is and
/// whatever it offers. An uncompressed format is taken only where there is no MJPEG, the current
/// format is uncompressed and no compressed one is offered; of the compressed ones that are offered
/// none comes before the one that is taken.
pub proof fn lemma_mjpeg_is_preferred(
    current: FourCC,
    has_mjpeg: bool,
    offered: Seq<FourCC>,
    r: FourCC,
)
    requires
        is_capture_format(current, has_mjpeg, offered, r),
    ensures
        has_mjpeg ==> r.repr@ == seq![77u8, 74u8, 80u8, 71u8],
        !compressed(r) ==> {
            &&& !has_mjpeg
            &&& r == current
            &&& forall|i: int| 0 <= i < offered.len() ==> !compressed(#[trigger] offered[i])
        },
        !has_mjpeg && compressed(current) ==> r == current,
        !has_mjpeg && r != current ==> exists|i: int|
            {
                &&& 0 <= i < offered.len()
                &&& #[trigger] offered[i] == r
                &&& compressed(r)
                &&& forall|j: int| 0 <= j < i ==> !compressed(#[trigger] offered[j])
            },
{
    let p = is_compressed_format();
    lemma_compressed_codes(r);
    crate::split::lemma_first_found(offered, p);
    let at = crate::split::first_where(offered, p);
    assert forall|i: int| 0 <= i < at implies !compressed(#[trigger] offered[i]) by {
        assert(!p(offered[i]));
    }
    if at < offered.len() {
        assert(p(offered[at]));
    }
}

/// The compressed formats are `MJPG`, `JPEG`, `H264`, `HEVC`, `MPEG`, `MPG1`, `MPG2` and `MPG4`, and
/// no others.
pub proof fn lemma_compressed_codes(fourcc: FourCC)
    ensures
        compressed(fourcc) <==> {
            let code = (fourcc.repr@[0], fourcc.repr@[1], fourcc.repr@[2], fourcc.repr@[3]);
            ||| code == (0x4du8, 0x4au8, 0x50u8, 0x47u8)
            ||| code == (0x4au8, 0x50u8, 0x45u8, 0x47u8)
            ||| code == (0x48u8, 0x32u8, 0x36u8, 0x34u8)
            ||| code == (0x48u8, 0x45u8, 0x56u8, 0x43u8)
            ||| code == (0x4du8, 0x50u8, 0x45u8, 0x47u8)
            ||| code == (0x4du8, 0x50u8, 0x47u8, 0x31u8)
            ||| code == (0x4du8, 0x50u8, 0x47u8, 0x32u8)
            ||| code == (0x4du8, 0x50u8, 0x47u8, 0x34u8)
        },
{
    let repr = fourcc.repr@;
    lemma_code_bytes(repr, 77, 74, 80, 71);
    lemma_code_bytes(repr, 74, 80, 69, 71);
    lemma_code_bytes(repr, 72, 50, 54, 52);
    lemma_code_bytes(repr, 72, 69, 86, 67);
    lemma_code_bytes(repr, 77, 80, 69, 71);
    lemma_code_bytes(repr, 77, 80, 71, 49);
    lemma_code_bytes(repr, 77, 80, 71, 50);
    lemma_code_bytes(repr, 77, 80, 71, 52);
}

proof fn lemma_code_bytes(repr: Seq<u8>, a: u8, b: u8, c: u8, d: u8)
    requires
        repr.len() == 4,
    ensures
        repr == seq![a, b, c, d] <==> repr[0] == a && repr[1] == b && repr[2] == c && repr[3] == d,
{
    if repr[0] == a && repr[1] == b && repr[2] == c && repr[3] == d {
        assert(repr =~= seq![a, b, c, d]);
    }
}

/// What is said where a format could not be set.
pub open spec fn format_error_text(
    device: Seq<char>,
    fourcc: FourCC,
    width: u32,
    height: u32,
    why: Seq<char>,
) -> Seq<char> {
    "could not set "@ + device + " format to "@ + fourcc.text() + " "@ + decimal(width as nat)
        + "x"@ + decimal(height as nat) + ": "@ + why
}

/// The error where a format could not be set.
pub fn format_error(device: &str, format: &Format, why: &str) -> (r: CamShimError)
    ensures
        r.is_other(format_error_text(device@, format.fourcc, format.width, format.height, why@)),
{
    let head = concat7(
        "could not set ",
        device,
        " format to ",
        &format.fourcc.name(),
        " ",
        &decimal_of(format.width as u64),
        "x",
    );
    CamShimError::other(concat4(&head, &decimal_of(format.height as u64), ": ", why))
}

/// The search for a capture mode that the camera takes.
#[derive(Debug)]
pub struct Negotiation {
    pub fourcc: FourCC,
    pub limits: CaptureLimits,
    /// The modes to try, in order.
    pub modes: Vec<(u32, u32)>,
    /// Whether the modes are the fallback ones.
    pub fallback: bool,
    /// How many modes were refused.
    pub at: usize,
    /// Why the last mode was refused.
    pub last_error: Option<String>,
}

/// What the search does next.
#[derive(Debug)]
pub enum NegotiationStep {
    /// Ask the camera for this frame size.
    Try(u32, u32),
    Failed(CamShimError),
}

/// A search is at its start.
pub open spec fn starts_search(
    n: Negotiation,
    fourcc: FourCC,
    sizes: Seq<FrameSize>,
    limits: CaptureLimits,
) -> bool {
    &&& n.fourcc == fourcc
    &&& n.limits == limits
    &&& n.at == 0
    &&& n.last_error is None
    &&& exists|modes: Seq<(u32, u32)>|
        {
            &&& #[trigger] are_modes(sizes, limits, modes)
            &&& n.fallback == (modes.len() == 0)
            &&& n.modes@ == if modes.len() == 0 {
                fallback_modes().filter(within(limits))
            } else {
                modes
            }
        }
}

/// What a search does next.
pub open spec fn is_search_step(n: Negotiation, r: NegotiationStep) -> bool {
    if n.at < n.modes@.len() {
        r == NegotiationStep::Try(n.modes@[n.at as int].0, n.modes@[n.at as int].1)
    } else {
        r matches NegotiationStep::Failed(err) && err.is_other(n.final_error())
    }
}

/// What a search comes to when a mode was refused.
pub open spec fn is_refusal(
    before: Negotiation,
    after: Negotiation,
    err: IoFailure,
    r: Option<CamShimError>,
) -> bool {
    &&& after.fourcc == before.fourcc
    &&& after.limits == before.limits
    &&& after.modes == before.modes
    &&& after.fallback == before.fallback
    &&& if !before.fallback && err.os_code == Some(19i32) {
        &&& r matches Some(e) && e.is_other(
            format_error_text(
                "source"@,
                before.fourcc,
                before.modes@[before.at as int].0,
                before.modes@[before.at as int].1,
                err.message@,
            ),
        )
        &&& after == before
    } else {
        &&& r is None
        &&& after.at == before.at + 1
        &&& after.last_error == Some(err.message)
    }
}

/// A search asks first for the largest frame size that the camera offers within the limits. Where it
/// offers none, the common sizes within the limits are asked for, from 1920x1080 down.
pub proof fn lemma_search_starts_with_largest(
    n: Negotiation,
    fourcc: FourCC,
    sizes: Seq<FrameSize>,
    limits: CaptureLimits,
    r: NegotiationStep,
    k: int,
    size: (u32, u32),
)
    requires
        starts_search(n, fourcc, sizes, limits),
        is_search_step(n, r),
        0 <= k < sizes.len(),
        has_size(sizes[k], size),
        size.0 <= limits.max_width && size.1 <= limits.max_height,
    ensures
        !n.fallback,
        r matches NegotiationStep::Try(width, height) && width <= limits.max_width && height
            <= limits.max_height && width * height >= size.0 * size.1 && exists|m: int|
            0 <= m < sizes.len() && has_size(#[trigger] sizes[m], (width, height)),
{
    let modes = choose|modes: Seq<(u32, u32)>|
        {
            &&& #[trigger] are_modes(sizes, limits, modes)
            &&& n.fallback == (modes.len() == 0)
            &&& n.modes@ == if modes.len() == 0 {
                fallback_modes().filter(within(limits))
            } else {
                modes
            }
        };
    lemma_range_steps(sizes[k], size);
    assert(offers_size(sizes[k].size, size));
    assert(offered(sizes, size));
    lemma_largest_mode_first(sizes, limits, modes, size);
    lemma_modes_are_those_within(sizes, limits, modes, modes[0], 0, 0);
    assert(modes.contains(modes[0]));
}

/// Where the camera offers no frame size within the limits, and only there, the sizes 1920x1080,
/// 1280x720, 1280x960 and 640x480 that are within them are asked for.
pub proof fn lemma_fallback_modes_are_common_sizes(
    n: Negotiation,
    fourcc: FourCC,
    sizes: Seq<FrameSize>,
    limits: CaptureLimits,
    size: (u32, u32),
)
    requires
        starts_search(n, fourcc, sizes, limits),
    ensures
        n.fourcc == fourcc,
        n.limits == limits,
        n.fallback <==> forall|k: int, other: (u32, u32)|
            0 <= k < sizes.len() && #[trigger] has_size(sizes[k], other) ==> other.0
                > limits.max_width || other.1 > limits.max_height,
        n.fallback ==> (n.modes@.contains(size) <==> size.0 <= limits.max_width && size.1
            <= limits.max_height && (size == (1920u32, 1080u32) || size == (1280u32, 720u32) || size
            == (1280u32, 960u32) || size == (640u32, 480u32))),
        n.fallback && 1920 <= limits.max_width && 1080 <= limits.max_height ==> n.modes@.len() > 0
            && n.modes@[0] == (1920u32, 1080u32),
{
    let modes = choose|modes: Seq<(u32, u32)>|
        {
            &&& #[trigger] are_modes(sizes, limits, modes)
            &&& n.fallback == (modes.len() == 0)
            &&& n.modes@ == if modes.len() == 0 {
                fallback_modes().filter(within(limits))
            } else {
                modes
            }
        };
    if n.fallback {
        assert forall|k: int, other: (u32, u32)|
            0 <= k < sizes.len() && #[trigger] has_size(sizes[k], other) implies other.0
            > limits.max_width || other.1 > limits.max_height by {
            lemma_modes_are_those_within(sizes, limits, modes, other, 0, 0);
        }
        let all = fallback_modes();
        let p = within(limits);
        crate::split::lemma_filter_members(all, p, size);
        assert(all[0] == (1920u32, 1080u32) && all[1] == (1280u32, 720u32) && all[2] == (
            1280u32,
            960u32,
        ) && all[3] == (640u32, 480u32));
        if p(all[0]) {
            lemma_filter_nothing(all, p);
            lemma_filter_step(all, p, 0);
            let head = all.take(1);
            let tail = all.skip(1);
            assert(all =~= head + tail);
            Seq::filter_distributes_over_add(head, tail, p);
            assert(head.filter(p)[0] == all[0]);
        }
    } else {
        lemma_modes_are_those_within(sizes, limits, modes, modes[0], 0, 0);
        assert(modes.contains(modes[0]));
        let k = choose|k: int| 0 <= k < sizes.len() && has_size(#[trigger] sizes[k], modes[0]);
        assert(has_size(sizes[k], modes[0]));
    }
}

/// A search passes over no mode: after a refusal the next one is asked for, until none is left; only
/// then it fails, with the last refusal. It ends before that only where a camera that named its modes
/// is gone.
pub proof fn lemma_search_goes_on(
    before: Negotiation,
    after: Negotiation,
    err: IoFailure,
    r: Option<CamShimError>,
    next: NegotiationStep,
)
    requires
        before.at < before.modes@.len(),
        is_refusal(before, after, err, r),
        is_search_step(after, next),
    ensures
        r is Some <==> !before.fallback && err.os_code == Some(19i32),
        r is None && before.at + 1 < before.modes@.len() ==> next == NegotiationStep::Try(
            before.modes@[before.at + 1].0,
            before.modes@[before.at + 1].1,
        ),
        r is None && before.at + 1 == before.modes@.len() ==> next is Failed && after.last_error
            == Some(err.message),
        after.modes == before.modes,
        after.fourcc == before.fourcc,
        after.limits == before.limits,
        after.fallback == before.fallback,
{
}

impl Negotiation {
    /// What is said where no mode is left.
    pub open spec fn final_error(self) -> Seq<char> {
        let size = if self.fallback {
            (self.limits.max_width, self.limits.max_height)
        } else if self.modes@.len() > 0 {
            self.modes@[0]
        } else {
            (0u32, 0u32)
        };
        let why = match self.last_error {
            Some(why) => why@,
            None => if self.fallback {
                "no capture mode at or below "@ + decimal(self.limits.max_width as nat) + "x"@
                    + decimal(self.limits.max_height as nat)
            } else {
                "no usable capture resolution"@
            },
        };
        format_error_text("source"@, self.fourcc, size.0, size.1, why)
    }

    /// Starts a search: the modes within the limits that the camera offers, the largest first, or
    /// the fallback modes where there is none.
    pub fn start(fourcc: FourCC, sizes: &[FrameSize], limits: CaptureLimits) -> (r: Self)
        ensures
            starts_search(r, fourcc, sizes@, limits),
            r.fourcc == fourcc,
            r.limits == limits,
            r.at == 0,
            r.last_error is None,
            exists|modes: Seq<(u32, u32)>|
                {
                    &&& #[trigger] are_modes(sizes@, limits, modes)
                    &&& r.fallback == (modes.len() == 0)
                    &&& r.modes@ == if modes.len() == 0 {
                        fallback_modes().filter(within(limits))
                    } else {
                        modes
                    }
                },
    {
        let modes = pick_sizes_sorted(sizes, limits);
        if modes.len() == 0 {
            let modes = fallback_sizes(limits);
            return Negotiation {
                fourcc,
                limits,
                modes,
                fallback: true,
                at: 0,
                last_error: None,
            };
        }
        Negotiation { fourcc, limits, modes, fallback: false, at: 0, last_error: None }
    }

    /// The next mode to try, or why the search failed.
    pub fn next(&self) -> (r: NegotiationStep)
        ensures
            is_search_step(*self, r),
            if self.at < self.modes@.len() {
                r == NegotiationStep::Try(
                    self.modes@[self.at as int].0,
                    self.modes@[self.at as int].1,
                )
            } else {
                r matches NegotiationStep::Failed(err) && err.is_other(self.final_error())
            },
    {
        if self.at < self.modes.len() {
            let (width, height) = self.modes[self.at];
            return NegotiationStep::Try(width, height);
        }
        let (width, height) = if self.fallback {
            (self.limits.max_width, self.limits.max_height)
        } else if self.modes.len() > 0 {
            self.modes[0]
        } else {
            (0, 0)
        };
        let why = match &self.last_error {
            Some(why) => why.clone(),
            None => if self.fallback {
                concat4(
                    "no capture mode at or below ",
                    &decimal_of(self.limits.max_width as u64),
                    "x",
                    &decimal_of(self.limits.max_height as u64),
                )
            } else {
                "no usable capture resolution".to_string()
            },
        };
        let format = Format { width, height, fourcc: self.fourcc };
        NegotiationStep::Failed(format_error("source", &format, &why))
    }

    /// Takes note that the camera refused the mode. Where the camera is gone, the search ends with
    /// the error; with the fallback modes it goes on all the same.
    pub fn refused(&mut self, err: IoFailure) -> (r: Option<CamShimError>)
        requires
            old(self).at < old(self).modes@.len(),
        ensures
            is_refusal(*old(self), *final(self), err, r),
            final(self).fourcc == old(self).fourcc,
            final(self).limits == old(self).limits,
            final(self).modes == old(self).modes,
            final(self).fallback == old(self).fallback,
            if !old(self).fallback && err.os_code == Some(19i32) {
                &&& r matches Some(e) && e.is_other(
                    format_error_text(
                        "source"@,
                        old(self).fourcc,
                        old(self).modes@[old(self).at as int].0,
                        old(self).modes@[old(self).at as int].1,
                        err.message@,
                    ),
                )
                &&& *final(self) == *old(self)
            } else {
                &&& r is None
                &&& final(self).at == old(self).at + 1
                &&& final(self).last_error == Some(err.message)
            },
    {
        let gone = match err.os_code {
            Some(code) => code == no_device_code(),
            None => false,
        };
        if !self.fallback && gone {
            let (width, height) = self.modes[self.at];
            let format = Format { width, height, fourcc: self.fourcc };
            return Some(format_error("source", &format, &err.message));
        }
        assert(self.at < self.modes.len());
        self.last_error = Some(err.message);
        self.at += 1;
        None
    }
}

/// The error where the format of the loopback device could not be read.
pub fn target_format_error(why: &str) -> (r: CamShimError)
    ensures
        r.is_other("could not read loopback output format: "@ + why@),
{
    CamShimError::other(concat2("could not read loopback output format: ", why))
}

/// The error where the frame rate of the loopback device could not be set.
pub fn target_fps_error(fps: u32, why: &str) -> (r: CamShimError)
    ensures
        r.is_other(
            "could not set loopback output fps to "@ + decimal(fps as nat) + ": "@ + why@,
        ),
{
    CamShimError::other(
        concat4("could not set loopback output fps to ", &decimal_of(fps as u64), ": ", why),
    )
}

/// The native rate of a camera, from its frame intervals where those can be read.
pub fn native_capture_fps(intervals: Option<Vec<FrameInterval>>) -> (r: Option<u32>)
    ensures
        match intervals {
            None => r is None,
            Some(intervals) => exists|rates: Seq<FpsRate>| #[trigger]
                lists_rates(rates, intervals@) && is_native_fps(rates, r),
        },
{
    match intervals {
        Some(intervals) => native_capture_fps_from_intervals(intervals.as_slice()),
        None => None,
    }
}

/// The frame in a capture buffer: as many bytes as were used. None, or more than the buffer holds,
/// is an error.
pub fn capture_frame_slice<'a>(buffer: &'a [u8], meta: &Metadata) -> (r: Result<
    &'a [u8],
    CamShimError,
>)
    ensures
        match r {
            Ok(frame) => {
                &&& 0 < meta.bytesused <= buffer@.len()
                &&& frame@ == buffer@.take(meta.bytesused as int)
            },
            Err(err) => {
                &&& meta.bytesused == 0 || meta.bytesused > buffer@.len()
                &&& err.is_other("received empty frame from physical camera"@)
            },
        },
{
    let len: usize = meta.bytesused as usize;
    if len == 0 || len > buffer.len() {
        return Err(
            CamShimError::other("received empty frame from physical camera".to_string()),
        );
    }
    Ok(vstd::slice::slice_subrange(buffer, 0, len))
}

/// Keeps a captured frame as the newest one. An empty frame is an error, and the frame before it is
/// kept.
pub fn take_frame(latest: &mut Vec<u8>, buffer: &[u8], meta: &Metadata) -> (r: Result<
    (),
    CamShimError,
>)
    ensures
        match r {
            Ok(()) => {
                &&& 0 < meta.bytesused <= buffer@.len()
                &&& final(latest)@ == buffer@.take(meta.bytesused as int)
            },
            Err(err) => {
                &&& meta.bytesused == 0 || meta.bytesused > buffer@.len()
                &&& final(latest)@ == old(latest)@
                &&& err.is_other("received empty frame from physical camera"@)
            },
        },
{
    match capture_frame_slice(buffer, meta) {
        Ok(frame) => {
            latest.clear();
            latest.extend_from_slice(frame);
            assert(latest@ =~= buffer@.take(meta.bytesused as int));
            Ok(())
        },
        Err(err) => Err(err),
    }
}

/// What a drain of the capture queue comes to, once a read failed: at a timeout the queue is empty,
/// and the newest frame is good if there is one.
pub fn drain_ended(err: IoFailure, latest: &Vec<u8>) -> (r: Result<(), CamShimError>)
    ensures
        if err.kind == IoKind::TimedOut {
            match r {
                Ok(()) => latest@.len() > 0,
                Err(e) => latest@.len() == 0 && e.is_other(
                    "no capture frame available for paced output"@,
                ),
            }
        } else {
            r == Err::<(), CamShimError>(CamShimError::Io(err))
        },
{
    match err.kind {
        IoKind::TimedOut => {
            if latest.len() == 0 {
                Err(
                    CamShimError::other("no capture frame available for paced output".to_string()),
                )
            } else {
                Ok(())
            }
        },
        _ => Err(CamShimError::Io(err)),
    }
}

/// What is said where a frame could not be handed to the loopback device.
pub open spec fn submit_error_text(
    len: nat,
    target_path: Seq<char>,
    fourcc: FourCC,
    why: Seq<char>,
) -> Seq<char> {
    "failed writing "@ + decimal(len) + " bytes to "@ + target_path + " as "@ + fourcc.text()
        + ": "@ + why
}

/// A frame that could not be handed over ends the shim.
pub open spec fn ends_shim(result: Result<(), CamShimError>) -> bool {
    result matches Err(err) && !(err matches CamShimError::Io(failure) && queue_would_wait(failure))
}

/// A frame that is skipped because the device is full, by a timeout or by error 11, 16 or 22, does not
/// end the shim; every other failure does.
pub proof fn lemma_skipped_frame_is_no_error(failure: crate::error::IoFailure)
    ensures
        !ends_shim(Ok(())),
        ends_shim(Err(CamShimError::Io(failure))) <==> !(failure.kind
            == crate::error::IoKind::TimedOut || failure.os_code == Some(11i32) || failure.os_code
            == Some(16i32) || failure.os_code == Some(22i32)),
{
}

/// What handing a frame to the loopback device comes to: a frame that is skipped because the device
/// is full is no error.
pub fn submit_loopback_frame(
    result: Result<(), CamShimError>,
    frame: &[u8],
    target_path: &str,
    fourcc: FourCC,
) -> (r: Result<(), CamShimError>)
    ensures
        r is Err <==> ends_shim(result),
        match result {
            Ok(()) => r is Ok,
            Err(err) => if err matches CamShimError::Io(failure) && queue_would_wait(failure) {
                r is Ok
            } else {
                r matches Err(e) && e.is_other(
                    submit_error_text(frame@.len(), target_path@, fourcc, err.text()),
                )
            },
        },
{
    match result {
        Ok(()) => Ok(()),
        Err(err) => {
            if LoopbackOutput::is_queue_timeout(&err) {
                return Ok(());
            }
            let head = concat7(
                "failed writing ",
                &decimal_of(frame.len() as u64),
                " bytes to ",
                target_path,
                " as ",
                &fourcc.name(),
                ": ",
            );
            Err(CamShimError::other(concat2(&head, &err.message())))
        },
    }
}

/// The pause before the next attempt to open a camera.
pub open spec fn pause_after(failed_attempts: u32) -> Option<u64> {
    if failed_attempts < OPEN_ATTEMPTS {
        Some(OPEN_RETRY_DELAY_MS)
    } else {
        None
    }
}

/// A camera is tried to be opened five times in all, 200 ms apart.
pub proof fn lemma_five_attempts(failed_attempts: u32)
    ensures
        pause_after(failed_attempts) is Some <==> failed_attempts < 5,
        pause_after(failed_attempts) matches Some(ms) ==> ms == 200,
{
}

/// The pause in milliseconds before a camera is tried to be opened once more, after so many failed
/// attempts; none once there were enough.
pub fn open_retry_delay(failed_attempts: u32) -> (r: Option<u64>)
    ensures
        r == pause_after(failed_attempts),
        r == if failed_attempts < OPEN_ATTEMPTS {
            Some(OPEN_RETRY_DELAY_MS)
        } else {
            None
        },
{
    if failed_attempts < OPEN_ATTEMPTS {
        Some(OPEN_RETRY_DELAY_MS)
    } else {
        None
    }
}

/// The error where a camera could not be opened.
pub fn open_source_error(path: &str, why: Option<String>) -> (r: CamShimError)
    ensures
        r.is_other(
            "could not open source device "@ + path@ + ": "@ + match why {
                Some(why) => why@,
                None => "unknown open error"@,
            },
        ),
{
    let why = match why {
        Some(why) => why,
        None => "unknown open error".to_string(),
    };
    CamShimError::other(concat4("could not open source device ", path, ": ", &why))
}

} // verus!
