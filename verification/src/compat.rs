//! Frame rate compatibility and the labels of virtual cameras.
use vstd::prelude::*;
use vstd::utf8::{decode_utf8, encode_scalar, encode_utf8, encode_utf8_decode_utf8};

use crate::media::{Fraction, FrameInterval, FrameIntervalEnum};
use crate::order::{
    has_rank, insert_unique, lemma_insert_contains, same_rank,
    strictly_sorted, SortKey,
};
use crate::split::{first_where, lemma_first_where};
use crate::text::{
    chars_of, concat2, concat3, contains, decimal, decimal_of, is_empty, is_space, join, joined,
    occurs, occurs_at, string_between, strip_prefix, texts, trim, trimmed, trimmed_end,
    trimmed_start, without_prefix,
};

verus! {

broadcast use crate::text::group_texts;

pub const STANDARDIZED_SUFFIX: &'static str = " - Linux Standardized";

pub const DEFAULT_TARGET_FPS: u32 = 30;

pub const DEFAULT_MAX_CAPTURE_WIDTH: u32 = 1920;

pub const DEFAULT_MAX_CAPTURE_HEIGHT: u32 = 1080;

/// The longest label that the kernel module takes, in bytes.
pub const KERNEL_LABEL_MAX: usize = 31;

/// A frame rate: `numerator / denominator` frames per second. Both are zero where the rate is
/// variable.
#[derive(Debug, Clone, Copy, PartialEq, Eq, PartialOrd, Ord, Structural)]
pub struct FpsRate {
    pub numerator: u32,
    pub denominator: u32,
}

/// Rates are listed by numerator, then by denominator.
impl SortKey for FpsRate {
    open spec fn before(self, other: Self) -> bool {
        self.numerator < other.numerator || (self.numerator == other.numerator && self.denominator
            < other.denominator)
    }

    proof fn before_transitive(a: Self, b: Self, c: Self) {
    }

    proof fn before_negative(a: Self, b: Self, c: Self) {
    }

    fn is_before(&self, other: &Self) -> (r: bool) {
        self.numerator < other.numerator || (self.numerator == other.numerator && self.denominator
            < other.denominator)
    }
}

impl FpsRate {
    pub open spec fn variable(self) -> bool {
        self.numerator == 0 && self.denominator == 0
    }

    /// 30 or 60 frames per second.
    pub open spec fn standard(self) -> bool {
        self.denominator == 1 && (self.numerator == 30 || self.numerator == 60)
    }

    /// The rate for people.
    pub open spec fn text(self) -> Seq<char> {
        if self.variable() {
            "variable"@
        } else if self.denominator == 1 {
            decimal(self.numerator as nat) + " fps"@
        } else {
            decimal(self.numerator as nat) + "/"@ + decimal(self.denominator as nat)
        }
    }

    /// The rate rounded to whole frames per second, halves up, and at least one; zero where there
    /// is no rate.
    pub open spec fn rounded(self) -> nat {
        if self.denominator == 0 {
            0
        } else {
            let nearest = (2 * self.numerator + self.denominator) as nat / (2
                * self.denominator) as nat;
            if nearest < 1 {
                1
            } else {
                nearest
            }
        }
    }

    /// The rate for people.
    pub fn display(&self) -> (r: String)
        ensures
            r@ == self.text(),
    {
        if self.is_variable() {
            return "variable".to_string();
        }
        if self.denominator == 1 {
            concat2(&decimal_of(self.numerator as u64), " fps")
        } else {
            concat3(
                &decimal_of(self.numerator as u64),
                "/",
                &decimal_of(self.denominator as u64),
            )
        }
    }

    /// Whether the device picks the rate as it goes.
    pub fn is_variable(&self) -> (r: bool)
        ensures
            r == self.variable(),
    {
        self.numerator == 0 && self.denominator == 0
    }

    /// Whether browsers and video calls expect this rate.
    pub fn is_standard(&self) -> (r: bool)
        ensures
            r == self.standard(),
    {
        !self.is_variable() && ((self.numerator == 30 && self.denominator == 1) || (self.numerator
            == 60 && self.denominator == 1))
    }

    /// The rate in whole frames per second.
    pub fn as_u32_fps(&self) -> (r: u32)
        ensures
            r == self.rounded(),
    {
        if self.is_variable() || self.denominator == 0 {
            return 0;
        }
        let n: u64 = self.numerator as u64;
        let d: u64 = self.denominator as u64;
        let nearest: u64 = (2 * n + d) / (2 * d);
        proof {
            assert(nearest <= u32::MAX) by (nonlinear_arith)
                requires
                    nearest == (2 * n + d) / (2 * d),
                    1 <= d,
                    n <= u32::MAX,
            ;
        }
        if nearest < 1 {
            1
        } else {
            nearest as u32
        }
    }
}

/// The rate of one frame per interval.
pub open spec fn rate_of_fraction(interval: Fraction) -> FpsRate {
    if interval.numerator == 0 || interval.denominator == 0 {
        FpsRate { numerator: 0, denominator: 0 }
    } else {
        FpsRate { numerator: interval.denominator, denominator: interval.numerator }
    }
}

/// The rate that an offered interval advertises: the fastest one of a range.
pub open spec fn rate_of(interval: FrameInterval) -> FpsRate {
    match interval.interval {
        FrameIntervalEnum::Discrete(fraction) => rate_of_fraction(fraction),
        FrameIntervalEnum::Stepwise(stepwise) => rate_of_fraction(stepwise.min),
    }
}

fn interval_to_fps(interval: Fraction) -> (r: FpsRate)
    ensures
        r == rate_of_fraction(interval),
{
    if interval.numerator == 0 || interval.denominator == 0 {
        return FpsRate { numerator: 0, denominator: 0 };
    }
    FpsRate { numerator: interval.denominator, denominator: interval.numerator }
}

impl From<Fraction> for FpsRate {
    fn from(interval: Fraction) -> (r: Self) {
        interval_to_fps(interval)
    }
}

impl vstd::std_specs::convert::FromSpecImpl<Fraction> for FpsRate {
    open spec fn obeys_from_spec() -> bool {
        true
    }

    open spec fn from_spec(interval: Fraction) -> Self {
        rate_of_fraction(interval)
    }
}

fn fps_from_interval(interval: &FrameInterval) -> (r: FpsRate)
    ensures
        r == rate_of(*interval),
{
    match interval.interval {
        FrameIntervalEnum::Discrete(fraction) => interval_to_fps(fraction),
        FrameIntervalEnum::Stepwise(stepwise) => interval_to_fps(stepwise.min),
    }
}

#[derive(Debug, Clone, Copy, PartialEq, Eq, Structural)]
pub enum CompatStatus {
    Compatible,
    NeedsShim,
}

/// What the frame rates of a camera say about its compatibility.
#[derive(Debug)]
pub struct CompatReport {
    pub status: CompatStatus,
    pub advertised_fps: Vec<FpsRate>,
    pub issues: Vec<String>,
}

/// One of the rates is variable.
pub open spec fn any_variable(rates: Seq<FpsRate>) -> bool {
    exists|i: int| 0 <= i < rates.len() && (#[trigger] rates[i]).variable()
}

/// One of the rates is 30 or 60 frames per second.
pub open spec fn any_standard(rates: Seq<FpsRate>) -> bool {
    exists|i: int| 0 <= i < rates.len() && (#[trigger] rates[i]).standard()
}

/// The rates for people.
pub open spec fn rate_texts(rates: Seq<FpsRate>) -> Seq<Seq<char>> {
    rates.map_values(|rate: FpsRate| rate.text())
}

/// What speaks against using a camera with these rates as it is.
pub open spec fn rate_issues(rates: Seq<FpsRate>) -> Seq<Seq<char>> {
    let variable = if any_variable(rates) {
        seq!["reports variable frame rate"@]
    } else {
        Seq::<Seq<char>>::empty()
    };
    if rates.len() == 0 {
        variable.push("no frame intervals reported"@)
    } else if !any_standard(rates) {
        variable.push("no 30/60 fps modes (found: "@ + joined(rate_texts(rates), ", "@) + ")"@)
    } else {
        variable
    }
}

/// `rates` lists, once each and in order, the rates that the intervals advertise.
pub open spec fn lists_rates(rates: Seq<FpsRate>, intervals: Seq<FrameInterval>) -> bool {
    &&& strictly_sorted(rates)
    &&& forall|rate: FpsRate| #[trigger]
        rates.contains(rate) <==> advertises(intervals, rate)
}

/// One of the intervals advertises the rate.
pub open spec fn advertises(intervals: Seq<FrameInterval>, rate: FpsRate) -> bool {
    exists|i: int| 0 <= i < intervals.len() && rate_of(#[trigger] intervals[i]) == rate
}

/// The rates that the intervals advertise.
fn advertised_rates(intervals: &[FrameInterval]) -> (r: Vec<FpsRate>)
    ensures
        lists_rates(r@, intervals@),
{
    let mut rates: Vec<FpsRate> = Vec::new();
    let mut i: usize = 0;
    while i < intervals.len()
        invariant
            i <= intervals@.len(),
            lists_rates(rates@, intervals@.take(i as int)),
        decreases intervals@.len() - i,
    {
        let ghost before = rates@;
        let ghost seen = intervals@.take(i as int);
        let rate = fps_from_interval(&intervals[i]);
        insert_unique(&mut rates, rate);
        proof {
            let now = intervals@.take(i + 1);
            assert forall|x: FpsRate| #[trigger] rates@.contains(x) <==> advertises(now, x) by {
                assert(advertises(now, x) <==> advertises(seen, x) || x == rate) by {
                    if advertises(seen, x) {
                        let k = choose|k: int|
                            0 <= k < seen.len() && rate_of(#[trigger] seen[k]) == x;
                        assert(now[k] == seen[k]);
                    }
                    assert(now[i as int] == intervals@[i as int]);
                    if advertises(now, x) && x != rate {
                        let k = choose|k: int|
                            0 <= k < now.len() && rate_of(#[trigger] now[k]) == x;
                        assert(seen[k] == now[k]);
                    }
                }
                assert(before.contains(x) <==> advertises(seen, x));
                if has_rank(before, rate) {
                    let k = choose|k: int|
                        0 <= k < before.len() && same_rank(#[trigger] before[k], rate);
                    assert(before[k] == rate);
                } else {
                    let pos = choose|pos: int|
                        0 <= pos <= before.len() && rates@ == #[trigger] before.insert(pos, rate);
                    lemma_insert_contains(before, pos, rate, x);
                }
            }
        }
        i += 1;
    }
    assert(intervals@.take(i as int) =~= intervals@);
    rates
}

/// The rates for people.
pub fn display_rates(rates: &Vec<FpsRate>) -> (r: Vec<String>)
    ensures
        texts(r@) == rate_texts(rates@),
{
    let mut out: Vec<String> = Vec::new();
    let mut i: usize = 0;
    assert(rate_texts(rates@).take(0) =~= Seq::<Seq<char>>::empty());
    while i < rates.len()
        invariant
            i <= rates@.len(),
            texts(out@) == rate_texts(rates@).take(i as int),
        decreases rates@.len() - i,
    {
        out.push(rates[i].display());
        assert(rate_texts(rates@).take(i + 1) =~= rate_texts(rates@).take(i as int).push(
            rates@[i as int].text(),
        ));
        i += 1;
    }
    assert(rate_texts(rates@).take(i as int) =~= rate_texts(rates@));
    out
}

fn has_variable(rates: &Vec<FpsRate>) -> (r: bool)
    ensures
        r == any_variable(rates@),
{
    let mut i: usize = 0;
    while i < rates.len()
        invariant
            i <= rates@.len(),
            forall|j: int| 0 <= j < i ==> !(#[trigger] rates@[j]).variable(),
        decreases rates@.len() - i,
    {
        if rates[i].is_variable() {
            return true;
        }
        i += 1;
    }
    false
}

fn has_standard(rates: &Vec<FpsRate>) -> (r: bool)
    ensures
        r == any_standard(rates@),
{
    let mut i: usize = 0;
    while i < rates.len()
        invariant
            i <= rates@.len(),
            forall|j: int| 0 <= j < i ==> !(#[trigger] rates@[j]).standard(),
        decreases rates@.len() - i,
    {
        if rates[i].is_standard() {
            return true;
        }
        i += 1;
    }
    false
}

impl CompatReport {
    /// Judges a camera by the frame intervals that it offers.
    pub fn from_intervals(intervals: &[FrameInterval]) -> (r: Self)
        ensures
            lists_rates(r.advertised_fps@, intervals@),
            texts(r.issues@) == rate_issues(r.advertised_fps@),
            r.status == if r.issues@.len() == 0 {
                CompatStatus::Compatible
            } else {
                CompatStatus::NeedsShim
            },
    {
        let advertised_fps = advertised_rates(intervals);
        let mut issues: Vec<String> = Vec::new();
        if has_variable(&advertised_fps) {
            issues.push("reports variable frame rate".to_string());
        }
        assert(texts(issues@) =~= if any_variable(advertised_fps@) {
            seq!["reports variable frame rate"@]
        } else {
            Seq::<Seq<char>>::empty()
        });
        if advertised_fps.len() == 0 {
            issues.push("no frame intervals reported".to_string());
        } else if !has_standard(&advertised_fps) {
            let native = join(&display_rates(&advertised_fps), ", ");
            issues.push(concat3("no 30/60 fps modes (found: ", &native, ")"));
        }
        let status = if issues.len() == 0 {
            CompatStatus::Compatible
        } else {
            CompatStatus::NeedsShim
        };
        CompatReport { status, advertised_fps, issues }
    }
}

/// Nothing speaks against a camera exactly when it offers 30 or 60 frames per second and no
/// variable rate.
pub proof fn lemma_compatible_rates(rates: Seq<FpsRate>)
    ensures
        rate_issues(rates).len() == 0 <==> any_standard(rates) && !any_variable(rates),
{
}

/// A camera is compatible exactly when one of its intervals gives 30 or 60 frames per second and
/// none gives a variable rate, however often and in whatever order they are offered.
pub proof fn lemma_compatible_intervals(rates: Seq<FpsRate>, intervals: Seq<FrameInterval>)
    requires
        lists_rates(rates, intervals),
    ensures
        rate_issues(rates).len() == 0 <==> {
            &&& exists|i: int|
                0 <= i < intervals.len() && rate_of(#[trigger] intervals[i]).standard()
            &&& forall|i: int|
                0 <= i < intervals.len() ==> !rate_of(#[trigger] intervals[i]).variable()
        },
{
    lemma_compatible_rates(rates);
    assert forall|i: int| 0 <= i < intervals.len() implies rates.contains(
        rate_of(#[trigger] intervals[i]),
    ) by {
        assert(advertises(intervals, rate_of(intervals[i])));
    }
    if any_standard(rates) {
        let k = choose|k: int| 0 <= k < rates.len() && (#[trigger] rates[k]).standard();
        assert(rates.contains(rates[k]));
        assert(advertises(intervals, rates[k]));
    }
    if any_variable(rates) {
        let k = choose|k: int| 0 <= k < rates.len() && (#[trigger] rates[k]).variable();
        assert(rates.contains(rates[k]));
        assert(advertises(intervals, rates[k]));
    }
}

/// `a` is at least as fast as `b`.
pub open spec fn as_fast(a: FpsRate, b: FpsRate) -> bool {
    b.numerator * a.denominator <= a.numerator * b.denominator
}

/// The rate at position `i` is fixed, and no fixed rate is faster.
pub open spec fn is_fastest(rates: Seq<FpsRate>, i: int) -> bool {
    &&& 0 <= i < rates.len()
    &&& !rates[i].variable()
    &&& forall|j: int|
        0 <= j < rates.len() && !(#[trigger] rates[j]).variable() ==> as_fast(rates[i], rates[j])
}

/// Every rate is variable or has neither part zero.
pub open spec fn proper_rates(rates: Seq<FpsRate>) -> bool {
    forall|i: int|
        0 <= i < rates.len() ==> (#[trigger] rates[i]).variable() || (rates[i].numerator > 0
            && rates[i].denominator > 0)
}

proof fn lemma_listed_rates_proper(rates: Seq<FpsRate>, intervals: Seq<FrameInterval>)
    requires
        lists_rates(rates, intervals),
    ensures
        proper_rates(rates),
{
    assert forall|i: int| 0 <= i < rates.len() implies (#[trigger] rates[i]).variable() || (
    rates[i].numerator > 0 && rates[i].denominator > 0) by {
        assert(rates.contains(rates[i]));
        assert(advertises(intervals, rates[i]));
    }
}

proof fn lemma_as_fast_transitive(a: FpsRate, b: FpsRate, c: FpsRate)
    requires
        as_fast(a, b),
        as_fast(b, c),
        b.denominator > 0,
    ensures
        as_fast(a, c),
{
    let (an, ad) = (a.numerator as int, a.denominator as int);
    let (bn, bd) = (b.numerator as int, b.denominator as int);
    let (cn, cd) = (c.numerator as int, c.denominator as int);
    assert(cn * ad <= an * cd) by (nonlinear_arith)
        requires
            bn * ad <= an * bd,
            cn * bd <= bn * cd,
            bd > 0,
            ad >= 0,
            cd >= 0,
    {
        assert(cn * bd * ad <= bn * cd * ad);
        assert(bn * ad * cd <= an * bd * cd);
        assert(bd * (cn * ad) <= bd * (an * cd));
    }
}

/// The position of the fastest fixed rate.
fn fastest_rate(rates: &Vec<FpsRate>) -> (r: Option<usize>)
    requires
        proper_rates(rates@),
    ensures
        match r {
            Some(i) => is_fastest(rates@, i as int),
            None => forall|i: int| 0 <= i < rates@.len() ==> (#[trigger] rates@[i]).variable(),
        },
{
    let mut best: Option<usize> = None;
    let mut i: usize = 0;
    while i < rates.len()
        invariant
            i <= rates@.len(),
            proper_rates(rates@),
            match best {
                Some(b) => is_fastest(rates@.take(i as int), b as int),
                None => forall|j: int| 0 <= j < i ==> (#[trigger] rates@[j]).variable(),
            },
        decreases rates@.len() - i,
    {
        let ghost seen = rates@.take(i as int);
        let ghost now = rates@.take(i + 1);
        if !rates[i].is_variable() {
            match best {
                None => {
                    best = Some(i);
                    assert(is_fastest(now, i as int));
                },
                Some(b) => {
                    assert(rates@[b as int] == seen[b as int]);
                    let new: u64 = rates[i].numerator as u64;
                    let old: u64 = rates[b].numerator as u64;
                    let new_parts: u64 = rates[i].denominator as u64;
                    let old_parts: u64 = rates[b].denominator as u64;
                    proof {
                        assert(new * old_parts <= 0xffff_ffff * 0xffff_ffff) by (nonlinear_arith)
                            requires
                                new <= 0xffff_ffff,
                                old_parts <= 0xffff_ffff,
                        ;
                        assert(old * new_parts <= 0xffff_ffff * 0xffff_ffff) by (nonlinear_arith)
                            requires
                                old <= 0xffff_ffff,
                                new_parts <= 0xffff_ffff,
                        ;
                    }
                    if new * old_parts >= old * new_parts {
                        best = Some(i);
                        proof {
                            let a = rates@[i as int];
                            let bb = rates@[b as int];
                            assert(as_fast(a, bb));
                            assert forall|j: int|
                                0 <= j < now.len() && !(#[trigger] now[j]).variable() implies as_fast(
                                now[i as int],
                                now[j],
                            ) by {
                                if j < i {
                                    assert(as_fast(seen[b as int], seen[j]));
                                    lemma_as_fast_transitive(a, bb, seen[j]);
                                }
                            }
                            assert(is_fastest(now, i as int));
                        }
                    } else {
                        proof {
                            assert forall|j: int|
                                0 <= j < now.len() && !(#[trigger] now[j]).variable() implies as_fast(
                                now[b as int],
                                now[j],
                            ) by {
                                if j < i {
                                    assert(as_fast(seen[b as int], seen[j]));
                                }
                            }
                            assert(is_fastest(now, b as int));
                        }
                    }
                },
            }
        } else {
            proof {
                if let Some(b) = best {
                    assert forall|j: int|
                        0 <= j < now.len() && !(#[trigger] now[j]).variable() implies as_fast(
                        now[b as int],
                        now[j],
                    ) by {
                        assert(j < i);
                        assert(as_fast(seen[b as int], seen[j]));
                    }
                    assert(is_fastest(now, b as int));
                }
            }
        }
        i += 1;
    }
    assert(rates@.take(i as int) =~= rates@);
    best
}

/// `fps` is the fastest fixed rate in whole frames per second, if there is a fixed rate.
pub open spec fn is_native_fps(rates: Seq<FpsRate>, fps: Option<u32>) -> bool {
    match fps {
        Some(n) => exists|i: int| #[trigger] is_fastest(rates, i) && n == rates[i].rounded(),
        None => forall|i: int| 0 <= i < rates.len() ==> (#[trigger] rates[i]).variable(),
    }
}

fn native_fps(rates: &Vec<FpsRate>) -> (r: Option<u32>)
    requires
        proper_rates(rates@),
    ensures
        is_native_fps(rates@, r),
{
    match fastest_rate(rates) {
        Some(i) => {
            let r = rates[i].as_u32_fps();
            assert(is_fastest(rates@, i as int));
            Some(r)
        },
        None => None,
    }
}

/// `fps` is the native rate of a camera with these intervals.
pub open spec fn is_native_rate(intervals: Seq<FrameInterval>, fps: Option<u32>) -> bool {
    exists|rates: Seq<FpsRate>| #[trigger]
        lists_rates(rates, intervals) && is_native_fps(rates, fps)
}

/// `fps` is what a loopback device advertises for a camera with these intervals.
pub open spec fn is_loopback_rate(
    intervals: Seq<FrameInterval>,
    requested: u32,
    fps: u32,
) -> bool {
    exists|rates: Seq<FpsRate>|
        {
            &&& #[trigger] lists_rates(rates, intervals)
            &&& any_standard(rates) ==> fps == requested
            &&& !any_standard(rates) ==> is_native_fps(rates, Some(fps)) || (is_native_fps(
                rates,
                None,
            ) && fps == requested)
        }
}

/// A time between two frames that is neither zero nor endless.
pub open spec fn is_fixed_time(time: (u32, u32)) -> bool {
    time.0 > 0 && time.1 > 0
}

/// `time` is the shortest of the fixed times between two frames that are offered.
pub open spec fn is_shortest_time(intervals: Seq<FrameInterval>, time: (u32, u32)) -> bool {
    &&& is_fixed_time(time)
    &&& exists|i: int| 0 <= i < intervals.len() && frame_time(#[trigger] intervals[i]) == time
    &&& forall|i: int|
        0 <= i < intervals.len() && is_fixed_time(frame_time(#[trigger] intervals[i])) ==> time.0
            * frame_time(intervals[i]).1 <= frame_time(intervals[i]).0 * time.1
}

/// `fps` frames take a second, to within half a frame, at the given time between two; it is one
/// where that is less than one.
pub open spec fn is_nearest_rate(time: (u32, u32), fps: int) -> bool {
    &&& fps >= 1
    &&& 2 * time.1 < 2 * (fps * time.0) + time.0
    &&& fps > 1 ==> 2 * (fps * time.0) - time.0 <= 2 * time.1
}

proof fn lemma_rounded_is_nearest(time: (u32, u32), rate: FpsRate)
    requires
        is_fixed_time(time),
        rate.numerator == time.1,
        rate.denominator == time.0,
    ensures
        is_nearest_rate(time, rate.rounded() as int),
{
    let n = rate.numerator as int;
    let d = rate.denominator as int;
    let q = (2 * n + d) / (2 * d);
    vstd::arithmetic::div_mod::lemma_fundamental_div_mod(2 * n + d, 2 * d);
    vstd::arithmetic::div_mod::lemma_mod_bound(2 * n + d, 2 * d);
    vstd::arithmetic::div_mod::lemma_div_pos_is_pos(2 * n + d, 2 * d);
    assert((2 * d) * q == 2 * (q * d)) by (nonlinear_arith);
    let nearest = (2 * rate.numerator + rate.denominator) as nat / (2 * rate.denominator) as nat;
    assert(nearest == q);
    let fps = rate.rounded() as int;
    assert(1 * d == d);
    if fps == q {
        assert(2 * n < 2 * (fps * d) + d);
    } else {
        assert(q == 0 && fps == 1);
        assert(0 * d == 0);
    }
}

/// The native rate of a camera is that of the shortest fixed time between two frames that it offers,
/// in whole frames. It has none exactly when no time that it offers is fixed.
pub proof fn lemma_native_rate(intervals: Seq<FrameInterval>, fps: Option<u32>)
    requires
        is_native_rate(intervals, fps),
    ensures
        fps is None <==> forall|i: int|
            0 <= i < intervals.len() ==> !is_fixed_time(frame_time(#[trigger] intervals[i])),
        fps matches Some(n) ==> exists|time: (u32, u32)| #[trigger]
            is_shortest_time(intervals, time) && is_nearest_rate(time, n as int),
{
    let rates = choose|rates: Seq<FpsRate>| #[trigger]
        lists_rates(rates, intervals) && is_native_fps(rates, fps);
    lemma_listed_rates_proper(rates, intervals);
    match fps {
        Some(n) => {
            let at = choose|i: int| #[trigger] is_fastest(rates, i) && n == rates[i].rounded();
            assert(rates.contains(rates[at]));
            assert(advertises(intervals, rates[at]));
            let i = choose|i: int|
                0 <= i < intervals.len() && rate_of(#[trigger] intervals[i]) == rates[at];
            let time = frame_time(intervals[i]);
            assert(is_fixed_time(time));
            assert forall|j: int|
                0 <= j < intervals.len() && is_fixed_time(
                    frame_time(#[trigger] intervals[j]),
                ) implies time.0 * frame_time(intervals[j]).1 <= frame_time(intervals[j]).0
                * time.1 by {
                let rate = rate_of(intervals[j]);
                assert(advertises(intervals, rate));
                assert(rates.contains(rate));
                let k = choose|k: int| 0 <= k < rates.len() && rates[k] == rate;
                assert(as_fast(rates[at], rates[k]));
                let (a, b) = (time.0 as int, frame_time(intervals[j]).1 as int);
                let (c, d) = (frame_time(intervals[j]).0 as int, time.1 as int);
                assert(a * b == b * a) by (nonlinear_arith);
                assert(c * d == d * c) by (nonlinear_arith);
            }
            assert(is_shortest_time(intervals, time));
            lemma_rounded_is_nearest(time, rates[at]);
        },
        None => {
            assert forall|i: int| 0 <= i < intervals.len() implies !is_fixed_time(
                frame_time(#[trigger] intervals[i]),
            ) by {
                let rate = rate_of(intervals[i]);
                assert(advertises(intervals, rate));
                assert(rates.contains(rate));
            }
        },
    }
}

/// A loopback device advertises the rate that was asked for where the camera offers 1/30 or 1/60 of a
/// second between two frames, and where it offers no fixed time; otherwise it advertises the rate of
/// the shortest fixed time.
pub proof fn lemma_loopback_rate(intervals: Seq<FrameInterval>, requested: u32, fps: u32)
    requires
        is_loopback_rate(intervals, requested, fps),
    ensures
        (exists|i: int|
            0 <= i < intervals.len() && (frame_time(#[trigger] intervals[i]) == (1u32, 30u32)
                || frame_time(intervals[i]) == (1u32, 60u32))) ==> fps == requested,
        (forall|i: int|
            0 <= i < intervals.len() ==> !is_fixed_time(frame_time(#[trigger] intervals[i])))
            ==> fps == requested,
        (forall|i: int|
            0 <= i < intervals.len() ==> frame_time(#[trigger] intervals[i]) != (1u32, 30u32)
                && frame_time(intervals[i]) != (1u32, 60u32)) && (exists|i: int|
            0 <= i < intervals.len() && is_fixed_time(frame_time(#[trigger] intervals[i])))
            ==> exists|time: (u32, u32)| #[trigger]
            is_shortest_time(intervals, time) && is_nearest_rate(time, fps as int),
{
    let rates = choose|rates: Seq<FpsRate>|
        {
            &&& #[trigger] lists_rates(rates, intervals)
            &&& any_standard(rates) ==> fps == requested
            &&& !any_standard(rates) ==> is_native_fps(rates, Some(fps)) || (is_native_fps(
                rates,
                None,
            ) && fps == requested)
        };
    if any_standard(rates) {
        let at = choose|i: int| 0 <= i < rates.len() && (#[trigger] rates[i]).standard();
        assert(rates.contains(rates[at]));
        assert(advertises(intervals, rates[at]));
        let i = choose|i: int|
            0 <= i < intervals.len() && rate_of(#[trigger] intervals[i]) == rates[at];
        assert(frame_time(intervals[i]) == (1u32, 30u32) || frame_time(intervals[i]) == (
            1u32,
            60u32,
        ));
    } else {
        assert forall|i: int| 0 <= i < intervals.len() implies frame_time(#[trigger] intervals[i])
            != (1u32, 30u32) && frame_time(intervals[i]) != (1u32, 60u32) by {
            let rate = rate_of(intervals[i]);
            assert(advertises(intervals, rate));
            assert(rates.contains(rate));
            let k = choose|k: int| 0 <= k < rates.len() && rates[k] == rate;
            assert(!rates[k].standard());
        }
        if is_native_fps(rates, Some(fps)) {
            assert(is_native_rate(intervals, Some(fps)));
            lemma_native_rate(intervals, Some(fps));
        } else {
            assert(is_native_rate(intervals, None));
            lemma_native_rate(intervals, None);
        }
    }
}

/// The fastest fixed rate that a camera offers, in whole frames per second.
pub fn native_capture_fps_from_intervals(intervals: &[FrameInterval]) -> (r: Option<u32>)
    ensures
        is_native_rate(intervals@, r),
        exists|rates: Seq<FpsRate>| #[trigger]
            lists_rates(rates, intervals@) && is_native_fps(rates, r),
{
    let rates = advertised_rates(intervals);
    proof {
        lemma_listed_rates_proper(rates@, intervals@);
    }
    let r = native_fps(&rates);
    assert(lists_rates(rates@, intervals@));
    r
}

/// The frame rate that a loopback device advertises: the requested one where the camera offers 30
/// or 60 frames per second, otherwise the fastest fixed rate of the camera (25 frames per second
/// for many PAL webcams), and the requested one where there is none.
pub fn loopback_fps_from_intervals(intervals: &[FrameInterval], requested: u32) -> (r: u32)
    ensures
        is_loopback_rate(intervals@, requested, r),
        exists|rates: Seq<FpsRate>|
            {
                &&& #[trigger] lists_rates(rates, intervals@)
                &&& any_standard(rates) ==> r == requested
                &&& !any_standard(rates) ==> is_native_fps(rates, Some(r)) || (is_native_fps(
                    rates,
                    None,
                ) && r == requested)
            },
{
    let report = CompatReport::from_intervals(intervals);
    proof {
        lemma_listed_rates_proper(report.advertised_fps@, intervals@);
    }
    assert(lists_rates(report.advertised_fps@, intervals@));
    if has_standard(&report.advertised_fps) {
        return requested;
    }
    match native_fps(&report.advertised_fps) {
        Some(fps) => fps,
        None => requested,
    }
}

/// The label of the virtual camera for a camera of the given name.
pub open spec fn standardized(name: Seq<char>) -> Seq<char> {
    if trimmed(name).len() == 0 {
        "Webcam"@ + STANDARDIZED_SUFFIX@
    } else {
        trimmed(name) + STANDARDIZED_SUFFIX@
    }
}

/// The label of a virtual camera is the name of the camera, without the white space around it, and
/// the suffix. A camera without a name goes by `Webcam`.
pub proof fn lemma_label_names_the_camera(before: Seq<char>, name: Seq<char>, after: Seq<char>)
    requires
        forall|i: int| 0 <= i < before.len() ==> is_space(#[trigger] before[i]),
        forall|i: int| 0 <= i < after.len() ==> is_space(#[trigger] after[i]),
        name.len() > 0 ==> !is_space(name[0]) && !is_space(name.last()),
    ensures
        name.len() > 0 ==> standardized(before + name + after) == name
            + " - Linux Standardized"@,
        name.len() == 0 ==> standardized(before + name + after) == "Webcam"@
            + " - Linux Standardized"@,
{
    crate::text::lemma_trimmed(before, name, after);
}

/// The label of the virtual camera for a camera of the given name.
pub fn standardized_label(original_name: &str) -> (r: String)
    ensures
        r@ == standardized(original_name@),
{
    let name = trim(original_name);
    if is_empty(&name) {
        return concat2("Webcam", STANDARDIZED_SUFFIX);
    }
    concat2(&name, STANDARDIZED_SUFFIX)
}

/// How many bytes a character takes.
pub open spec fn char_bytes(c: char) -> int {
    encode_scalar(c as u32).len() as int
}

fn char_width(c: char) -> (r: usize)
    ensures
        r == char_bytes(c),
{
    let v: u32 = c as u32;
    if v <= 0x7F {
        1
    } else if v <= 0x7FF {
        2
    } else if v <= 0xFFFF {
        3
    } else {
        4
    }
}

/// The characters that `s` begins with, as far as `n` bytes hold them.
pub open spec fn first_bytes(s: Seq<char>, n: int) -> Seq<char>
    decreases s.len(),
{
    if s.len() == 0 || char_bytes(s[0]) > n {
        Seq::empty()
    } else {
        seq![s[0]] + first_bytes(s.drop_first(), n - char_bytes(s[0]))
    }
}

proof fn lemma_encode_concat(a: Seq<char>, b: Seq<char>)
    ensures
        encode_utf8(a + b) == encode_utf8(a) + encode_utf8(b),
    decreases a.len(),
{
    if a.len() == 0 {
        assert(a + b =~= b);
        assert(encode_utf8(a) + encode_utf8(b) =~= encode_utf8(b));
    } else {
        lemma_encode_concat(a.drop_first(), b);
        assert((a + b).drop_first() =~= a.drop_first() + b);
        assert(encode_utf8(a + b) =~= encode_utf8(a) + encode_utf8(b));
    }
}

/// What is kept of a text that is cut at a number of bytes begins the text, takes no more than
/// that many bytes, and is as long as it can be.
pub proof fn lemma_first_bytes(s: Seq<char>, n: int)
    requires
        n >= 0,
    ensures
        first_bytes(s, n).is_prefix_of(s),
        encode_utf8(first_bytes(s, n)).len() <= n,
        first_bytes(s, n).len() < s.len() ==> encode_utf8(
            s.take(first_bytes(s, n).len() as int + 1),
        ).len() > n,
    decreases s.len(),
{
    let kept = first_bytes(s, n);
    if s.len() > 0 {
        let first = encode_scalar(s[0] as u32);
        let rest = s.drop_first();
        let next = s.take(kept.len() as int + 1);
        if kept.len() < s.len() {
            assert(next.drop_first() =~= rest.take(kept.len() as int));
        }
        if first.len() > n {
            assert(encode_utf8(next) == first + encode_utf8(rest.take(0)));
        } else {
            lemma_first_bytes(rest, n - first.len());
            let more = first_bytes(rest, n - first.len());
            assert(kept.drop_first() =~= more);
            assert(kept.len() == more.len() + 1);
            assert(s.subrange(0, kept.len() as int) =~= kept) by {
                assert(rest.subrange(0, more.len() as int) == more);
                assert forall|i: int| 0 <= i < kept.len() implies s[i] == kept[i] by {
                    if i > 0 {
                        assert(more[i - 1] == rest.subrange(0, more.len() as int)[i - 1]);
                    }
                }
            }
        }
    }
}

/// A label without the white space around it and the driver's prefix.
pub open spec fn plain_label(label: Seq<char>) -> Seq<char> {
    match without_prefix(trimmed(label), "webcam: "@) {
        Some(rest) => rest,
        None => trimmed(label),
    }
}

/// The label fits into the kernel's label field.
pub open spec fn fits_kernel(label: Seq<char>) -> bool {
    encode_utf8(label).len() <= KERNEL_LABEL_MAX
}

/// The label that the kernel module is given for a display label. One that is too long is cut at
/// the end of a character, and keeps a suffix that tells it from others.
pub open spec fn kernel_label(display_label: Seq<char>) -> Seq<char> {
    let label = plain_label(display_label);
    if fits_kernel(label) {
        label
    } else if occurs(label, "Linux Standardized"@) {
        first_bytes(label, KERNEL_LABEL_MAX - 12) + " - Linux Std"@
    } else {
        first_bytes(label, KERNEL_LABEL_MAX as int)
    }
}

fn take_bytes(s: &str, n: usize) -> (r: String)
    ensures
        r@ == first_bytes(s@, n as int),
{
    let x = chars_of(s);
    let mut room: usize = n;
    let mut i: usize = 0;
    assert(x@.take(0) + first_bytes(x@.skip(0), n as int) =~= first_bytes(s@, n as int)) by {
        assert(x@.skip(0) =~= s@);
    }
    while i < x.len() && char_width(x[i]) <= room
        invariant
            i <= x@.len(),
            x@ == s@,
            first_bytes(s@, n as int) == x@.take(i as int) + first_bytes(
                x@.skip(i as int),
                room as int,
            ),
        decreases x@.len() - i,
    {
        let ghost rest = x@.skip(i as int);
        let ghost left = room as int - char_bytes(x@[i as int]);
        proof {
            assert(rest.drop_first() =~= x@.skip(i + 1));
            assert(x@.take(i as int) + (seq![rest[0]] + first_bytes(rest.drop_first(), left))
                =~= x@.take(i + 1) + first_bytes(x@.skip(i + 1), left));
        }
        room -= char_width(x[i]);
        i += 1;
    }
    assert(first_bytes(x@.skip(i as int), room as int) =~= Seq::<char>::empty());
    assert(x@.take(i as int) + Seq::<char>::empty() =~= x@.subrange(0, i as int));
    string_between(&x, 0, i)
}

/// The label that the kernel module is given. Its label field holds 31 bytes; a label that is too
/// long is cut so that the suffix stays visible.
pub fn kernel_card_label(display_label: &str) -> (r: String)
    ensures
        r@ == kernel_label(display_label@),
        fits_kernel(r@),
        fits_kernel(plain_label(display_label@)) ==> r@ == plain_label(display_label@),
        occurs(display_label@, "Linux Standardized"@) ==> suffix_is_visible(r@),
{
    proof {
        lemma_kernel_label_fits(display_label@);
        if occurs(display_label@, "Linux Standardized"@) {
            lemma_suffix_stays_visible(display_label@);
        }
    }
    let mut label = trim(display_label);
    if let Some(rest) = strip_prefix(&label, "webcam: ") {
        label = rest;
    }
    if label.as_str().as_bytes().len() <= KERNEL_LABEL_MAX {
        return label;
    }
    if contains(&label, "Linux Standardized") {
        return concat2(&take_bytes(&label, KERNEL_LABEL_MAX - 12), " - Linux Std");
    }
    take_bytes(&label, KERNEL_LABEL_MAX)
}

/// A label shows that it is one of a virtual camera of this program.
pub open spec fn suffix_is_visible(label: Seq<char>) -> bool {
    occurs(label, "Linux Standardized"@) || " - Linux Std"@.is_suffix_of(label)
}

/// What stands in a text and neither begins nor ends with white space is still there when the text
/// is trimmed.
pub proof fn lemma_trim_keeps(s: Seq<char>, pattern: Seq<char>)
    requires
        occurs(s, pattern),
        pattern.len() > 0,
        !is_space(pattern[0]),
        !is_space(pattern.last()),
    ensures
        occurs(trimmed(s), pattern),
{
    lemma_trim_start_keeps(s, pattern);
    lemma_trim_end_keeps(trimmed_start(s), pattern);
}

proof fn lemma_trim_start_keeps(s: Seq<char>, pattern: Seq<char>)
    requires
        occurs(s, pattern),
        pattern.len() > 0,
        !is_space(pattern[0]),
    ensures
        occurs(trimmed_start(s), pattern),
    decreases s.len(),
{
    if s.len() > 0 && is_space(s[0]) {
        let rest = s.subrange(1, s.len() as int);
        let at = choose|at: int| occurs_at(s, pattern, at);
        assert(s.subrange(at, at + pattern.len())[0] == pattern[0]);
        assert(rest.subrange(at - 1, at - 1 + pattern.len()) =~= pattern);
        assert(occurs_at(rest, pattern, at - 1));
        lemma_trim_start_keeps(rest, pattern);
    }
}

proof fn lemma_trim_end_keeps(s: Seq<char>, pattern: Seq<char>)
    requires
        occurs(s, pattern),
        pattern.len() > 0,
        !is_space(pattern.last()),
    ensures
        occurs(trimmed_end(s), pattern),
    decreases s.len(),
{
    if s.len() > 0 && is_space(s.last()) {
        let rest = s.drop_last();
        let at = choose|at: int| occurs_at(s, pattern, at);
        assert(s.subrange(at, at + pattern.len()).last() == pattern.last());
        assert(rest.subrange(at, at + pattern.len()) =~= pattern);
        assert(occurs_at(rest, pattern, at));
        lemma_trim_end_keeps(rest, pattern);
    }
}

/// A display label with the suffix of this program's labels keeps one in the kernel's label field,
/// however long it is and whatever its characters are.
pub proof fn lemma_suffix_stays_visible(display_label: Seq<char>)
    requires
        occurs(display_label, "Linux Standardized"@),
    ensures
        suffix_is_visible(kernel_label(display_label)),
{
    reveal_strlit("Linux Standardized");
    reveal_strlit("webcam: ");
    let pattern = "Linux Standardized"@;
    let whole = trimmed(display_label);
    lemma_trim_keeps(display_label, pattern);
    if "webcam: "@.is_prefix_of(whole) {
        let at = choose|at: int| occurs_at(whole, pattern, at);
        assert(whole.subrange(at, at + pattern.len())[0] == 'L');
        assert(at >= 8) by {
            if at < 8 {
                assert(whole.subrange(0, 8)[at] == "webcam: "@[at]);
            }
        }
        let rest = whole.subrange(8, whole.len() as int);
        assert(rest.subrange(at - 8, at - 8 + pattern.len()) =~= pattern);
        assert(occurs_at(rest, pattern, at - 8));
    }
    assert(occurs(plain_label(display_label), pattern));
    let kernel = kernel_label(display_label);
    if !fits_kernel(plain_label(display_label)) {
        let suffix = " - Linux Std"@;
        assert(kernel.subrange(kernel.len() - suffix.len(), kernel.len() as int) =~= suffix);
    }
}

/// The label field of the kernel module: the bytes of the label, and zeros behind them.
pub open spec fn kernel_label_field(display_label: Seq<char>) -> Seq<u8> {
    let bytes = encode_utf8(kernel_label(display_label));
    Seq::new(
        32,
        |i: int|
            if i < bytes.len() {
                bytes[i]
            } else {
                0u8
            },
    )
}

/// The label field of the kernel module.
pub fn kernel_card_label_bytes(display_label: &str) -> (r: [u8; 32])
    ensures
        r@ == kernel_label_field(display_label@),
{
    let label = kernel_card_label(display_label);
    let bytes = label.as_str().as_bytes();
    let mut out: [u8; 32] = [0u8;32];
    let mut i: usize = 0;
    while i < bytes.len()
        invariant
            i <= bytes@.len() <= 31,
            bytes@ == encode_utf8(kernel_label(display_label@)),
            out@.len() == 32,
            forall|j: int| 0 <= j < i ==> out@[j] == bytes@[j],
            forall|j: int| i <= j < 32 ==> out@[j] == 0u8,
        decreases bytes@.len() - i,
    {
        out[i] = bytes[i];
        i += 1;
    }
    assert(out@ =~= kernel_label_field(display_label@));
    out
}

/// Zero, as a predicate on bytes.
pub open spec fn is_zero() -> spec_fn(u8) -> bool {
    |byte: u8| byte == 0
}

/// The text in a label field, as the kernel reads it: what stands before the first zero byte.
pub open spec fn field_text(field: Seq<u8>) -> Seq<char> {
    decode_utf8(field.take(first_where(field, is_zero())))
}

/// The label that the kernel module is given fits into its label field, whatever the display label,
/// and the field holds all of it.
pub proof fn lemma_kernel_label_fits(display_label: Seq<char>)
    ensures
        fits_kernel(kernel_label(display_label)),
        ({
            let bytes = encode_utf8(kernel_label(display_label));
            let field = kernel_label_field(display_label);
            &&& field.take(bytes.len() as int) == bytes
            &&& forall|i: int| bytes.len() <= i < 32 ==> #[trigger] field[i] == 0
        }),
{
    let label = plain_label(display_label);
    let kernel = kernel_label(display_label);
    if !fits_kernel(label) {
        if occurs(label, "Linux Standardized"@) {
            let suffix = " - Linux Std"@;
            lemma_first_bytes(label, KERNEL_LABEL_MAX - 12);
            lemma_encode_concat(first_bytes(label, KERNEL_LABEL_MAX - 12), suffix);
            reveal_strlit(" - Linux Std");
            vstd::utf8::is_ascii_chars_encode_utf8(suffix);
        } else {
            lemma_first_bytes(label, KERNEL_LABEL_MAX as int);
        }
    }
    let bytes = encode_utf8(kernel);
    assert(kernel_label_field(display_label).take(bytes.len() as int) =~= bytes);
}

proof fn lemma_only_zero_is_zero(c: char)
    ensures
        c as u32 == 0 ==> c == '\0',
{
}

proof fn lemma_scalar_has_no_zero_bytes(v: u32)
    requires
        v != 0,
    ensures
        forall|i: int| 0 <= i < encode_scalar(v).len() ==> #[trigger] encode_scalar(v)[i] != 0,
{
    assert(v != 0 && v <= 0x7F ==> (v & 0x7F) as u8 != 0) by (bit_vector);
    assert(0xC0 | ((v >> 6) & 0x1F) as u8 != 0) by (bit_vector);
    assert(0xE0 | ((v >> 12) & 0x0F) as u8 != 0) by (bit_vector);
    assert(0xF0 | ((v >> 18) & 0x7) as u8 != 0) by (bit_vector);
    assert(0x80 | (v & 0x3F) as u8 != 0) by (bit_vector);
    assert(0x80 | ((v >> 6) & 0x3F) as u8 != 0) by (bit_vector);
    assert(0x80 | ((v >> 12) & 0x3F) as u8 != 0) by (bit_vector);
}

/// A text without the zero character has no zero byte.
pub proof fn lemma_no_zero_bytes(s: Seq<char>)
    requires
        !s.contains('\0'),
    ensures
        forall|i: int| 0 <= i < encode_utf8(s).len() ==> #[trigger] encode_utf8(s)[i] != 0,
    decreases s.len(),
{
    if s.len() > 0 {
        let v = s[0] as u32;
        let first = encode_scalar(v);
        let rest = s.drop_first();
        assert(s.contains(s[0]));
        assert(!rest.contains('\0')) by {
            if rest.contains('\0') {
                let i = choose|i: int| 0 <= i < rest.len() && rest[i] == '\0';
                assert(s[i + 1] == '\0');
            }
        }
        lemma_no_zero_bytes(rest);
        lemma_only_zero_is_zero(s[0]);
        lemma_scalar_has_no_zero_bytes(v);
        assert forall|i: int| 0 <= i < encode_utf8(s).len() implies #[trigger] encode_utf8(s)[i]
            != 0 by {
            if i < first.len() {
                assert(encode_utf8(s)[i] == first[i]);
            } else {
                assert(encode_utf8(s)[i] == encode_utf8(rest)[i - first.len()]);
            }
        }
    }
}

/// What the kernel reads from the label field is the whole label, unless the label has a zero
/// character, with which the kernel takes it to end. Names that the kernel hands out have none.
pub proof fn lemma_field_keeps_label(display_label: Seq<char>)
    requires
        !kernel_label(display_label).contains('\0'),
    ensures
        field_text(kernel_label_field(display_label)) == kernel_label(display_label),
{
    let kernel = kernel_label(display_label);
    let bytes = encode_utf8(kernel);
    let field = kernel_label_field(display_label);
    lemma_kernel_label_fits(display_label);
    lemma_no_zero_bytes(kernel);
    assert forall|j: int| 0 <= j < bytes.len() implies !is_zero()(#[trigger] field[j]) by {
        assert(field[j] == bytes[j]);
    }
    lemma_first_where(field, is_zero(), bytes.len() as int);
    encode_utf8_decode_utf8(kernel);
}

/// The shortest time between two frames that is offered, as numerator and denominator in seconds.
pub open spec fn frame_time(interval: FrameInterval) -> (u32, u32) {
    match interval.interval {
        FrameIntervalEnum::Discrete(time) => (time.numerator, time.denominator),
        FrameIntervalEnum::Stepwise(range) => (range.min.numerator, range.min.denominator),
    }
}

/// Nothing speaks against a camera exactly when one of the times between two frames that it offers
/// is 1/30 or 1/60 of a second, and none is without a numerator or a denominator.
pub proof fn lemma_compatible_frame_times(rates: Seq<FpsRate>, intervals: Seq<FrameInterval>)
    requires
        lists_rates(rates, intervals),
    ensures
        rate_issues(rates).len() == 0 <==> {
            &&& exists|i: int|
                0 <= i < intervals.len() && (frame_time(#[trigger] intervals[i]) == (1u32, 30u32)
                    || frame_time(intervals[i]) == (1u32, 60u32))
            &&& forall|i: int|
                0 <= i < intervals.len() ==> frame_time(#[trigger] intervals[i]).0 > 0
                    && frame_time(intervals[i]).1 > 0
        },
{
    lemma_compatible_intervals(rates, intervals);
    assert forall|i: int| 0 <= i < intervals.len() implies {
        &&& rate_of(#[trigger] intervals[i]).standard() <==> frame_time(intervals[i]) == (
            1u32,
            30u32,
        ) || frame_time(intervals[i]) == (1u32, 60u32)
        &&& rate_of(intervals[i]).variable() <==> frame_time(intervals[i]).0 == 0 || frame_time(
            intervals[i],
        ).1 == 0
    } by {}
    if exists|i: int| 0 <= i < intervals.len() && rate_of(#[trigger] intervals[i]).standard() {
        let i = choose|i: int|
            0 <= i < intervals.len() && rate_of(#[trigger] intervals[i]).standard();
        assert(frame_time(intervals[i]) == (1u32, 30u32) || frame_time(intervals[i]) == (
            1u32,
            60u32,
        ));
    }
    if exists|i: int|
        0 <= i < intervals.len() && (frame_time(#[trigger] intervals[i]) == (1u32, 30u32)
            || frame_time(intervals[i]) == (1u32, 60u32)) {
        let i = choose|i: int|
            0 <= i < intervals.len() && (frame_time(#[trigger] intervals[i]) == (1u32, 30u32)
                || frame_time(intervals[i]) == (1u32, 60u32));
        assert(rate_of(intervals[i]).standard());
    }
}

} // verus!
