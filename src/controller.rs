//! Hysteretic, rate-limited volume smoothing.
//!
//! Loudness readings and volume levels are in millionths of full scale;
//! times are milliseconds on a clock chosen by the caller.
use vstd::prelude::*;
use vstd::math::{abs, max, min};

verus! {

/// Full scale: a level of one.
pub const LEVEL_SCALE: u64 = 1_000_000;

/// The level that normal content drifts back to.
pub const BASELINE_LEVEL: u64 = 500_000;

/// How far quiet content raises the target per update.
pub const QUIET_STEP: u64 = 50_000;

/// The highest target that quiet content can raise the level to.
pub const QUIET_CEILING: u64 = 900_000;

/// How far loud content lowers the target per update.
pub const LOUD_STEP: u64 = 150_000;

/// The lowest target that loud content can lower the level to.
pub const LOUD_FLOOR: u64 = 200_000;

/// How far normal content moves the target toward the baseline per update.
pub const DRIFT_STEP: u64 = 20_000;

/// A change of target must exceed this to be emitted.
pub const SIGNIFICANT_CHANGE: u64 = 10_000;

/// Emitted levels are clamped to this band.
pub const OUTPUT_MIN: u64 = 100_000;

/// Upper end of the output band.
pub const OUTPUT_MAX: u64 = 900_000;

/// Each update moves the level by this fraction (one over it) of the way to the target.
pub const SMOOTHING_DIVISOR: u64 = 10;

/// Minimum time between two emitted adjustments.
pub const ADJUSTMENT_COOLDOWN_MS: u64 = 500;

/// Why a controller could not be built.
#[derive(Debug, Clone, Copy, PartialEq, Eq, Structural)]
pub enum ConfigError {
    /// The quiet threshold is not below the loud threshold.
    ThresholdsNotOrdered,
}

/// The mathematical state of a [`VolumeController`].
pub ghost struct ControllerState {
    pub current: int,
    pub target: int,
    pub quiet: int,
    pub loud: int,
    pub last_adjustment: int,
}

impl ControllerState {
    /// Levels stay in the band that the regimes can reach; thresholds are ordered.
    pub open spec fn wf(self) -> bool {
        &&& LOUD_FLOOR <= self.current <= QUIET_CEILING
        &&& LOUD_FLOOR <= self.target <= QUIET_CEILING
        &&& 0 <= self.quiet < self.loud <= u64::MAX
        &&& 0 <= self.last_adjustment <= u64::MAX
    }
}

/// The state of a controller built at time `now`.
pub open spec fn initial_state(quiet: int, loud: int, now: int) -> ControllerState {
    ControllerState {
        current: BASELINE_LEVEL as int,
        target: BASELINE_LEVEL as int,
        quiet,
        loud,
        last_adjustment: now,
    }
}

/// An update at `now` falls within the cooldown of the last adjustment.
pub open spec fn in_cooldown(s: ControllerState, now: int) -> bool {
    now < s.last_adjustment + ADJUSTMENT_COOLDOWN_MS
}

/// The target that a reading of `loudness` sets, stepping from the current level.
pub open spec fn next_target(s: ControllerState, loudness: int) -> int {
    if loudness < s.quiet {
        min(s.current + QUIET_STEP, QUIET_CEILING as int)
    } else if loudness > s.loud {
        max(s.current - LOUD_STEP, LOUD_FLOOR as int)
    } else if s.current == BASELINE_LEVEL {
        s.target
    } else if s.current > BASELINE_LEVEL {
        max(s.current - DRIFT_STEP, BASELINE_LEVEL as int)
    } else {
        min(s.current + DRIFT_STEP, BASELINE_LEVEL as int)
    }
}

/// `current` moved a tenth of the way to `target`, the step rounded away from
/// zero so that the level reaches its target instead of stalling short of it.
pub open spec fn smoothed(current: int, target: int) -> int {
    if target >= current {
        current + (target - current + SMOOTHING_DIVISOR - 1) / (SMOOTHING_DIVISOR as int)
    } else {
        current - (current - target + SMOOTHING_DIVISOR - 1) / (SMOOTHING_DIVISOR as int)
    }
}

/// A change of target large enough to be emitted.
pub open spec fn significant(old_target: int, new_target: int) -> bool {
    abs(new_target - old_target) > SIGNIFICANT_CHANGE
}

/// `level` clamped to the output band.
pub open spec fn clamp_output(level: int) -> int {
    min(max(level, OUTPUT_MIN as int), OUTPUT_MAX as int)
}

/// The state after a reading of `loudness` at `now`.
pub open spec fn next_state(s: ControllerState, loudness: int, now: int) -> ControllerState {
    if in_cooldown(s, now) {
        s
    } else {
        let t = next_target(s, loudness);
        ControllerState {
            current: smoothed(s.current, t),
            target: t,
            quiet: s.quiet,
            loud: s.loud,
            last_adjustment: if significant(s.target, t) {
                now
            } else {
                s.last_adjustment
            },
        }
    }
}

/// The level emitted for a reading of `loudness` at `now`, if any.
pub open spec fn emission(s: ControllerState, loudness: int, now: int) -> Option<int> {
    if in_cooldown(s, now) {
        None
    } else {
        let t = next_target(s, loudness);
        if significant(s.target, t) {
            Some(clamp_output(smoothed(s.current, t)))
        } else {
            None
        }
    }
}

/// An optional level read as an integer.
pub open spec fn as_int(r: Option<u64>) -> Option<int> {
    match r {
        Some(v) => Some(v as int),
        None => None,
    }
}

/// The smoothed level lies between the level and its target, both included.
pub proof fn lemma_smoothed_between(current: int, target: int)
    ensures
        target >= current ==> current <= smoothed(current, target) <= target,
        target <= current ==> target <= smoothed(current, target) <= current,
        target > current ==> current < smoothed(current, target),
        target < current ==> smoothed(current, target) < current,
{
}

/// Every update keeps the state well formed.
pub proof fn lemma_next_state_wf(s: ControllerState, loudness: int, now: int)
    requires
        s.wf(),
        0 <= now <= u64::MAX,
    ensures
        next_state(s, loudness, now).wf(),
{
    lemma_smoothed_between(s.current, next_target(s, loudness));
}

/// Two updates less than a cooldown apart emit at most once.
pub proof fn lemma_cooldown_emits_once(
    s: ControllerState,
    first: int,
    t1: int,
    second: int,
    t2: int,
)
    requires
        t1 <= t2 < t1 + ADJUSTMENT_COOLDOWN_MS,
    ensures
        emission(s, first, t1) is Some ==> emission(next_state(s, first, t1), second, t2) is None,
        emission(s, first, t1) is Some ==> next_state(next_state(s, first, t1), second, t2)
            == next_state(s, first, t1),
{
}

/// Under quiet content the level never falls and never passes the quiet
/// ceiling, and rises while below it outside the cooldown.
pub proof fn lemma_quiet_raises(s: ControllerState, loudness: int, now: int)
    requires
        s.wf(),
        loudness < s.quiet,
    ensures
        s.current <= next_state(s, loudness, now).current <= QUIET_CEILING,
        !in_cooldown(s, now) && s.current < QUIET_CEILING ==> s.current < next_state(
            s,
            loudness,
            now,
        ).current,
{
    lemma_smoothed_between(s.current, next_target(s, loudness));
}

/// Under loud content the level never rises and never passes the loud floor,
/// and falls while above it outside the cooldown.
pub proof fn lemma_loud_lowers(s: ControllerState, loudness: int, now: int)
    requires
        s.wf(),
        loudness > s.loud,
    ensures
        LOUD_FLOOR <= next_state(s, loudness, now).current <= s.current,
        !in_cooldown(s, now) && s.current > LOUD_FLOOR ==> next_state(
            s,
            loudness,
            now,
        ).current < s.current,
{
    lemma_smoothed_between(s.current, next_target(s, loudness));
}

/// A state that, once at the baseline, also aims at it.
pub open spec fn settles_at_baseline(s: ControllerState) -> bool {
    s.current == BASELINE_LEVEL ==> s.target == BASELINE_LEVEL
}

/// Under normal content a displaced level moves toward the baseline without
/// crossing it, strictly closer each time, and stays there once reached.
pub proof fn lemma_normal_returns_to_baseline(s: ControllerState, loudness: int, now: int)
    requires
        s.wf(),
        settles_at_baseline(s),
        s.quiet <= loudness <= s.loud,
    ensures
        ({
            let n = next_state(s, loudness, now);
            &&& s.current >= BASELINE_LEVEL ==> BASELINE_LEVEL <= n.current <= s.current
            &&& s.current <= BASELINE_LEVEL ==> s.current <= n.current <= BASELINE_LEVEL
            &&& !in_cooldown(s, now) && s.current != BASELINE_LEVEL ==> abs(n.current
                - BASELINE_LEVEL) < abs(s.current - BASELINE_LEVEL)
            &&& settles_at_baseline(n)
        }),
{
    lemma_smoothed_between(s.current, next_target(s, loudness));
}

/// The state after a sequence of readings, each a loudness and the time it
/// was taken.
pub open spec fn run(s: ControllerState, readings: Seq<(int, int)>) -> ControllerState
    decreases readings.len(),
{
    if readings.len() == 0 {
        s
    } else {
        let last = readings.last();
        next_state(run(s, readings.drop_last()), last.0, last.1)
    }
}

/// Times a clock of the controller can show.
pub open spec fn times_in_range(readings: Seq<(int, int)>) -> bool {
    forall|k: int| 0 <= k < readings.len() ==> 0 <= #[trigger] readings[k].1 <= u64::MAX
}

/// Any run keeps the state well formed and the thresholds as they were.
pub proof fn lemma_run_wf(s: ControllerState, readings: Seq<(int, int)>)
    requires
        s.wf(),
        times_in_range(readings),
    ensures
        run(s, readings).wf(),
        run(s, readings).quiet == s.quiet,
        run(s, readings).loud == s.loud,
    decreases readings.len(),
{
    if readings.len() > 0 {
        let p = readings.drop_last();
        assert(times_in_range(p)) by {
            assert forall|k: int| 0 <= k < p.len() implies 0 <= #[trigger] p[k].1 <= u64::MAX by {
                assert(p[k] == readings[k]);
            }
        }
        lemma_run_wf(s, p);
        lemma_next_state_wf(run(s, p), readings.last().0, readings.last().1);
    }
}

/// Dropping the last reading leaves the shorter prefixes as they were.
proof fn lemma_prefix_of_prefix(readings: Seq<(int, int)>, i: int)
    requires
        0 <= i < readings.len(),
    ensures
        readings.drop_last().take(i) == readings.take(i),
        readings.take(readings.len() as int) == readings,
{
    assert(readings.drop_last().take(i) =~= readings.take(i));
    assert(readings.take(readings.len() as int) =~= readings);
}

/// Repeated quiet readings never lower the level, and it never passes the
/// quiet ceiling: along the run the level only climbs toward it.
pub proof fn lemma_quiet_run(s: ControllerState, readings: Seq<(int, int)>)
    requires
        s.wf(),
        times_in_range(readings),
        forall|k: int| 0 <= k < readings.len() ==> #[trigger] readings[k].0 < s.quiet,
    ensures
        forall|i: int, j: int|
            0 <= i <= j <= readings.len() ==> run(s, #[trigger] readings.take(i)).current <= run(
                s,
                #[trigger] readings.take(j),
            ).current <= QUIET_CEILING,
    decreases readings.len(),
{
    if readings.len() == 0 {
        assert(readings.take(0) =~= readings);
    } else {
        let p = readings.drop_last();
        let n = readings.len() as int;
        assert(times_in_range(p)) by {
            assert forall|k: int| 0 <= k < p.len() implies 0 <= #[trigger] p[k].1 <= u64::MAX by {
                assert(p[k] == readings[k]);
            }
        }
        assert forall|k: int| 0 <= k < p.len() implies #[trigger] p[k].0 < s.quiet by {
            assert(p[k] == readings[k]);
        }
        lemma_quiet_run(s, p);
        lemma_run_wf(s, p);
        lemma_quiet_raises(run(s, p), readings.last().0, readings.last().1);
        assert forall|i: int, j: int| 0 <= i <= j <= n implies run(
            s,
            #[trigger] readings.take(i),
        ).current <= run(s, #[trigger] readings.take(j)).current <= QUIET_CEILING by {
            lemma_prefix_of_prefix(readings, 0);
            assert(p.take(n - 1) =~= p);
            if j < n {
                lemma_prefix_of_prefix(readings, i);
                lemma_prefix_of_prefix(readings, j);
            } else if i < n {
                lemma_prefix_of_prefix(readings, i);
            }
        }
    }
}

/// Repeated loud readings never raise the level, and it never passes the loud
/// floor: along the run the level only falls toward it.
pub proof fn lemma_loud_run(s: ControllerState, readings: Seq<(int, int)>)
    requires
        s.wf(),
        times_in_range(readings),
        forall|k: int| 0 <= k < readings.len() ==> #[trigger] readings[k].0 > s.loud,
    ensures
        forall|i: int, j: int|
            0 <= i <= j <= readings.len() ==> LOUD_FLOOR <= run(
                s,
                #[trigger] readings.take(j),
            ).current <= run(s, #[trigger] readings.take(i)).current,
    decreases readings.len(),
{
    if readings.len() == 0 {
        assert(readings.take(0) =~= readings);
    } else {
        let p = readings.drop_last();
        let n = readings.len() as int;
        assert(times_in_range(p)) by {
            assert forall|k: int| 0 <= k < p.len() implies 0 <= #[trigger] p[k].1 <= u64::MAX by {
                assert(p[k] == readings[k]);
            }
        }
        assert forall|k: int| 0 <= k < p.len() implies #[trigger] p[k].0 > s.loud by {
            assert(p[k] == readings[k]);
        }
        lemma_loud_run(s, p);
        lemma_run_wf(s, p);
        lemma_loud_lowers(run(s, p), readings.last().0, readings.last().1);
        assert forall|i: int, j: int| 0 <= i <= j <= n implies LOUD_FLOOR <= run(
            s,
            #[trigger] readings.take(j),
        ).current <= run(s, #[trigger] readings.take(i)).current by {
            lemma_prefix_of_prefix(readings, 0);
            assert(p.take(n - 1) =~= p);
            if j < n {
                lemma_prefix_of_prefix(readings, i);
                lemma_prefix_of_prefix(readings, j);
            } else if i < n {
                lemma_prefix_of_prefix(readings, i);
            }
        }
    }
}

/// Repeated normal readings move the level toward the baseline and never
/// across it: along the run the distance to the baseline never grows.
pub proof fn lemma_normal_run(s: ControllerState, readings: Seq<(int, int)>)
    requires
        s.wf(),
        settles_at_baseline(s),
        times_in_range(readings),
        forall|k: int|
            0 <= k < readings.len() ==> s.quiet <= #[trigger] readings[k].0 <= s.loud,
    ensures
        settles_at_baseline(run(s, readings)),
        forall|i: int, j: int|
            0 <= i <= j <= readings.len() ==> {
                let a = run(s, #[trigger] readings.take(i)).current;
                let b = run(s, #[trigger] readings.take(j)).current;
                &&& s.current >= BASELINE_LEVEL ==> BASELINE_LEVEL <= b <= a
                &&& s.current <= BASELINE_LEVEL ==> a <= b <= BASELINE_LEVEL
            },
    decreases readings.len(),
{
    if readings.len() == 0 {
        assert(readings.take(0) =~= readings);
    } else {
        let p = readings.drop_last();
        let n = readings.len() as int;
        assert(times_in_range(p)) by {
            assert forall|k: int| 0 <= k < p.len() implies 0 <= #[trigger] p[k].1 <= u64::MAX by {
                assert(p[k] == readings[k]);
            }
        }
        assert forall|k: int| 0 <= k < p.len() implies s.quiet <= #[trigger] p[k].0 <= s.loud by {
            assert(p[k] == readings[k]);
        }
        lemma_normal_run(s, p);
        lemma_run_wf(s, p);
        lemma_normal_returns_to_baseline(run(s, p), readings.last().0, readings.last().1);
        assert(p.take(n - 1) =~= p);
        assert(readings.take(n) =~= readings);
        assert(p.take(0) =~= readings.take(0));
        assert forall|i: int, j: int| 0 <= i <= j <= n implies {
            let a = run(s, #[trigger] readings.take(i)).current;
            let b = run(s, #[trigger] readings.take(j)).current;
            &&& s.current >= BASELINE_LEVEL ==> BASELINE_LEVEL <= b <= a
            &&& s.current <= BASELINE_LEVEL ==> a <= b <= BASELINE_LEVEL
        } by {
            if j < n {
                lemma_prefix_of_prefix(readings, i);
                lemma_prefix_of_prefix(readings, j);
            } else if i < n {
                lemma_prefix_of_prefix(readings, i);
                lemma_prefix_of_prefix(readings, 0);
            }
        }
    }
}

/// Turns a loudness signal into a smoothed, rate-limited target volume.
pub struct VolumeController {
    current_level: u64,
    target_level: u64,
    quiet_threshold: u64,
    loud_threshold: u64,
    last_adjustment_ms: u64,
}

impl View for VolumeController {
    type V = ControllerState;

    closed spec fn view(&self) -> ControllerState {
        ControllerState {
            current: self.current_level as int,
            target: self.target_level as int,
            quiet: self.quiet_threshold as int,
            loud: self.loud_threshold as int,
            last_adjustment: self.last_adjustment_ms as int,
        }
    }
}

impl VolumeController {
    pub open spec fn wf(&self) -> bool {
        self@.wf()
    }

    /// A controller at the baseline level, its cooldown starting at `now_ms`.
    pub fn new(quiet_threshold: u64, loud_threshold: u64, now_ms: u64) -> (r: Result<
        Self,
        ConfigError,
    >)
        ensures
            quiet_threshold < loud_threshold <==> r is Ok,
            r matches Ok(c) ==> c.wf() && c@ == initial_state(
                quiet_threshold as int,
                loud_threshold as int,
                now_ms as int,
            ),
            r matches Err(e) ==> e == ConfigError::ThresholdsNotOrdered,
    {
        if quiet_threshold >= loud_threshold {
            return Err(ConfigError::ThresholdsNotOrdered);
        }
        Ok(VolumeController {
            current_level: BASELINE_LEVEL,
            target_level: BASELINE_LEVEL,
            quiet_threshold,
            loud_threshold,
            last_adjustment_ms: now_ms,
        })
    }

    /// The smoothed level.
    pub fn current_level(&self) -> (r: u64)
        ensures
            r == self@.current,
    {
        self.current_level
    }

    /// The level the controller is moving toward.
    pub fn target_level(&self) -> (r: u64)
        ensures
            r == self@.target,
    {
        self.target_level
    }

    /// When the last adjustment was emitted, or when the controller was built.
    pub fn last_adjustment_ms(&self) -> (r: u64)
        ensures
            r == self@.last_adjustment,
    {
        self.last_adjustment_ms
    }

    /// Feeds one loudness reading taken at `now_ms`; returns the new volume
    /// when the target moved significantly outside the cooldown.
    pub fn update(&mut self, audio_level: u64, now_ms: u64) -> (r: Option<u64>)
        requires
            old(self).wf(),
        ensures
            final(self).wf(),
            final(self)@ == next_state(old(self)@, audio_level as int, now_ms as int),
            as_int(r) == emission(old(self)@, audio_level as int, now_ms as int),
            in_cooldown(old(self)@, now_ms as int) ==> final(self)@ == old(self)@ && r is None,
            r matches Some(v) ==> OUTPUT_MIN <= v <= OUTPUT_MAX,
    {
        proof {
            lemma_next_state_wf(self@, audio_level as int, now_ms as int);
            lemma_smoothed_between(self@.current, next_target(self@, audio_level as int));
        }
        if now_ms < self.last_adjustment_ms || now_ms - self.last_adjustment_ms
            < ADJUSTMENT_COOLDOWN_MS {
            return None;
        }
        let old_target = self.target_level;
        let current = self.current_level;
        if audio_level < self.quiet_threshold {
            self.target_level = if current + QUIET_STEP < QUIET_CEILING {
                current + QUIET_STEP
            } else {
                QUIET_CEILING
            };
        } else if audio_level > self.loud_threshold {
            self.target_level = if current > LOUD_FLOOR + LOUD_STEP {
                current - LOUD_STEP
            } else {
                LOUD_FLOOR
            };
        } else if current != BASELINE_LEVEL {
            self.target_level = if current > BASELINE_LEVEL {
                if current - DRIFT_STEP > BASELINE_LEVEL {
                    current - DRIFT_STEP
                } else {
                    BASELINE_LEVEL
                }
            } else {
                if current + DRIFT_STEP < BASELINE_LEVEL {
                    current + DRIFT_STEP
                } else {
                    BASELINE_LEVEL
                }
            };
        }
        let target = self.target_level;
        self.current_level = if target >= current {
            current + (target - current + SMOOTHING_DIVISOR - 1) / SMOOTHING_DIVISOR
        } else {
            current - (current - target + SMOOTHING_DIVISOR - 1) / SMOOTHING_DIVISOR
        };
        let change = if target >= old_target {
            target - old_target
        } else {
            old_target - target
        };
        if change > SIGNIFICANT_CHANGE {
            self.last_adjustment_ms = now_ms;
            let level = self.current_level;
            Some(
                if level < OUTPUT_MIN {
                    OUTPUT_MIN
                } else if level > OUTPUT_MAX {
                    OUTPUT_MAX
                } else {
                    level
                },
            )
        } else {
            None
        }
    }
}

} // verus!
