//! How long the stages of a frame take, and why it does not matter.
//!
//! A clock is for profiling only. [`TimedTracker`] is a tracker with a stopwatch
//! beside it: readings of the clock go into the stopwatch and nowhere else, and
//! without a clock there are none. `T` is the type of a reading.

use vstd::prelude::*;

use crate::track::frame::{
    answers_left, begun, fits, outcome_of, proceeded, Answer, FrameRun, Progress, Stage,
    TrackOutcome,
};
use crate::track::session::{
    after_event, answers_fit, can_happen, frame_of, outcome_at, played, session, Event,
};
use crate::track::tracker::{
    fresh, relocalized, transformed, Backend, Snapshot, TrackConfig, Tracker, Transformed,
};

verus! {

/// The time between two readings.
#[derive(Debug, Clone, Copy)]
pub struct Lap<T> {
    pub from: T,
    pub to: T,
}

/// The parts of a frame that are timed.
#[derive(Debug, Clone, Copy, PartialEq, Eq, Structural)]
pub enum Part {
    /// Frame ingest and the intensity statistic.
    Upload,
    /// Pyramid construction.
    Pyramid,
    /// Flow.
    Flow,
    /// The pose solve.
    Pose,
    /// Keyframe or bootstrap, and corner detection.
    Corners,
}

/// How long each part of a frame took. A part that was not timed took no time.
#[derive(Debug, Clone, Copy)]
pub struct StageTimings<T> {
    pub upload: Option<Lap<T>>,
    pub pyramid: Option<Lap<T>>,
    pub corners: Option<Lap<T>>,
    pub flow: Option<Lap<T>>,
    pub pnp: Option<Lap<T>>,
    pub total: Option<Lap<T>>,
}

/// Nothing has been timed.
pub open spec fn untimed<T>() -> StageTimings<T> {
    StageTimings {
        upload: None,
        pyramid: None,
        corners: None,
        flow: None,
        pnp: None,
        total: None,
    }
}

/// A stopwatch: what it has timed, its latest reading, and the one it began with.
#[derive(Debug, Clone, Copy)]
pub struct Stopwatch<T> {
    pub timings: StageTimings<T>,
    pub mark: Option<T>,
    pub began: Option<T>,
}

/// A stopwatch set going; `None` is for want of a clock.
pub open spec fn set_going<T>(reading: Option<T>) -> Stopwatch<T> {
    Stopwatch { timings: untimed(), mark: reading, began: reading }
}

/// The timings with one part's replaced.
pub open spec fn with_lap<T>(t: StageTimings<T>, part: Part, lap: Lap<T>) -> StageTimings<T> {
    match part {
        Part::Upload => StageTimings { upload: Some(lap), ..t },
        Part::Pyramid => StageTimings { pyramid: Some(lap), ..t },
        Part::Flow => StageTimings { flow: Some(lap), ..t },
        Part::Pose => StageTimings { pnp: Some(lap), ..t },
        Part::Corners => StageTimings { corners: Some(lap), ..t },
    }
}

/// The stopwatch once a part is over: it lasted from the latest reading to this
/// one.
pub open spec fn lapped<T>(w: Stopwatch<T>, part: Part, reading: Option<T>) -> Stopwatch<T> {
    match (w.mark, reading) {
        (Some(from), Some(to)) => Stopwatch {
            timings: with_lap(w.timings, part, Lap { from, to }),
            mark: reading,
            ..w
        },
        (None, Some(_)) => Stopwatch { mark: reading, ..w },
        _ => w,
    }
}

/// The stopwatch once the frame is over.
pub open spec fn stopped<T>(w: Stopwatch<T>, reading: Option<T>) -> Stopwatch<T> {
    match (w.began, reading) {
        (Some(from), Some(to)) => Stopwatch {
            timings: StageTimings { total: Some(Lap { from, to }), ..w.timings },
            ..w
        },
        _ => w,
    }
}

/// Which part an answer brings to its end, if it does.
pub open spec fn part_ended(answered: Stage, next: Stage) -> Option<Part> {
    match answered {
        Stage::Flow => Some(Part::Flow),
        Stage::Pose => Some(Part::Pose),
        _ => if next == Stage::Done {
            Some(Part::Corners)
        } else {
            None
        },
    }
}

/// The stopwatch once an answer has been taken.
pub open spec fn after_answer<T>(
    w: Stopwatch<T>,
    answered: Stage,
    next: Stage,
    reading: Option<T>,
) -> Stopwatch<T> {
    match part_ended(answered, next) {
        Some(part) => lapped(w, part, reading),
        None => w,
    }
}

impl<T: Copy> Stopwatch<T> {
    /// A stopwatch set going.
    pub fn start(reading: Option<T>) -> (watch: Stopwatch<T>)
        ensures
            watch == set_going(reading),
    {
        Stopwatch {
            timings: StageTimings {
                upload: None,
                pyramid: None,
                corners: None,
                flow: None,
                pnp: None,
                total: None,
            },
            mark: reading,
            began: reading,
        }
    }

    /// Take note that a part is over.
    pub fn lap(&mut self, part: Part, reading: Option<T>)
        ensures
            *final(self) == lapped(*old(self), part, reading),
    {
        if let Some(to) = reading {
            if let Some(from) = self.mark {
                let lap: Option<Lap<T>> = Some(Lap { from, to });
                match part {
                    Part::Upload => {
                        self.timings.upload = lap;
                    },
                    Part::Pyramid => {
                        self.timings.pyramid = lap;
                    },
                    Part::Flow => {
                        self.timings.flow = lap;
                    },
                    Part::Pose => {
                        self.timings.pnp = lap;
                    },
                    Part::Corners => {
                        self.timings.corners = lap;
                    },
                }
            }
            self.mark = reading;
        }
    }

    /// Take note that the frame is over.
    pub fn stop(&mut self, reading: Option<T>)
        ensures
            *final(self) == stopped(*old(self), reading),
    {
        if let Some(to) = reading {
            if let Some(from) = self.began {
                self.timings.total = Some(Lap { from, to });
            }
        }
    }
}

/// A tracker with a stopwatch.
#[derive(Debug)]
pub struct TimedTracker<V, X, P, C, T> {
    tracker: Tracker<V, X, P, C>,
    watch: Stopwatch<T>,
}

/// The state of a tracker and its stopwatch.
pub struct TimedSnapshot<V, X, P, C, T> {
    pub tracker: Snapshot<V, X, P, C>,
    pub watch: Stopwatch<T>,
}

impl<V: Copy, X: Copy, P: Copy, C: Copy, T: Copy> View for TimedTracker<V, X, P, C, T> {
    type V = TimedSnapshot<V, X, P, C, T>;

    open spec fn view(&self) -> TimedSnapshot<V, X, P, C, T> {
        TimedSnapshot { tracker: self.inner()@, watch: self.stopwatch() }
    }
}

impl<V: Copy, X: Copy, P: Copy, C: Copy, T: Copy> TimedTracker<V, X, P, C, T> {
    /// The tracker itself.
    pub closed spec fn inner(&self) -> Tracker<V, X, P, C> {
        self.tracker
    }

    /// The stopwatch.
    pub closed spec fn stopwatch(&self) -> Stopwatch<T> {
        self.watch
    }

    /// A tracker before its first frame, with nothing timed.
    pub fn new(config: TrackConfig, gpu_available: bool) -> (timed: Self)
        ensures
            timed.inner().wf(),
            timed.inner().settings() == config,
            timed.inner().front_end() == (if config.use_gpu && gpu_available {
                Backend::Gpu
            } else {
                Backend::Cpu
            }),
            timed@ == (TimedSnapshot { tracker: fresh::<V, X, P, C>(), watch: set_going::<T>(None) }),
    {
        TimedTracker { tracker: Tracker::new(config, gpu_available), watch: Stopwatch::start(None) }
    }

    /// The tracker.
    pub fn tracker(&self) -> (tracker: &Tracker<V, X, P, C>)
        ensures
            *tracker == self.inner(),
    {
        &self.tracker
    }

    /// How long the parts of the latest frame took.
    pub fn timings(&self) -> (timings: StageTimings<T>)
        ensures
            timings == self@.watch.timings,
    {
        self.watch.timings
    }

    /// Set the stopwatch going.
    pub fn start(&mut self, reading: Option<T>)
        ensures
            final(self).inner() == old(self).inner(),
            final(self)@ == (TimedSnapshot { watch: set_going(reading), ..old(self)@ }),
    {
        self.watch = Stopwatch::start(reading);
    }

    /// Take note that a part of the frame is over.
    pub fn lap(&mut self, part: Part, reading: Option<T>)
        ensures
            final(self).inner() == old(self).inner(),
            final(self)@ == (TimedSnapshot {
                watch: lapped(old(self)@.watch, part, reading),
                ..old(self)@
            }),
    {
        self.watch.lap(part, reading);
    }

    /// Begin a frame.
    pub fn begin(&mut self, low_light: bool, refill_floor: usize, origin: P) -> (run: FrameRun<P>)
        requires
            old(self).inner().wf(),
            old(self)@.tracker.frame_index < u64::MAX,
            old(self)@.tracker.frame_index < usize::MAX,
        ensures
            final(self).inner().wf(),
            final(self).inner().settings() == old(self).inner().settings(),
            final(self).inner().front_end() == old(self).inner().front_end(),
            final(self)@.watch == old(self)@.watch,
            (Progress { tracker: final(self)@.tracker, run }) == begun(
                old(self)@.tracker,
                low_light,
                refill_floor,
                origin,
            ),
            (Progress { tracker: final(self)@.tracker, run }).wf(final(self).inner().settings()),
    {
        self.tracker.begin(low_light, refill_floor, origin)
    }

    /// Take an answer and go on to the next stage; `reading` is that of the clock
    /// once the answer was there. What becomes of the tracker and its frame does
    /// not depend on it.
    pub fn proceed(
        &mut self,
        run: &mut FrameRun<P>,
        answer: Answer<V, X, P, C>,
        reading: Option<T>,
    )
        requires
            old(self).inner().wf(),
            (Progress { tracker: old(self)@.tracker, run: *old(run) }).wf(
                old(self).inner().settings(),
            ),
            fits(
                Progress { tracker: old(self)@.tracker, run: *old(run) },
                old(self).inner().settings(),
                answer,
            ),
        ensures
            final(self).inner().wf(),
            final(self).inner().settings() == old(self).inner().settings(),
            final(self).inner().front_end() == old(self).inner().front_end(),
            (Progress { tracker: final(self)@.tracker, run: *final(run) }) == proceeded(
                Progress { tracker: old(self)@.tracker, run: *old(run) },
                old(self).inner().settings(),
                answer,
            ),
            (Progress { tracker: final(self)@.tracker, run: *final(run) }).wf(
                final(self).inner().settings(),
            ),
            final(self)@.watch == after_answer(
                old(self)@.watch,
                old(run).stage,
                final(run).stage,
                reading,
            ),
    {
        let answered: Stage = run.stage;
        self.tracker.proceed(run, answer);
        match answered {
            Stage::Flow => {
                self.watch.lap(Part::Flow, reading);
            },
            Stage::Pose => {
                self.watch.lap(Part::Pose, reading);
            },
            _ => {
                if run.stage == Stage::Done {
                    self.watch.lap(Part::Corners, reading);
                }
            },
        }
    }

    /// What a frame gave, once it is over.
    pub fn finish(&mut self, run: &FrameRun<P>, reading: Option<T>) -> (outcome: TrackOutcome<P, C>)
        ensures
            final(self).inner() == old(self).inner(),
            final(self)@ == (TimedSnapshot {
                watch: stopped(old(self)@.watch, reading),
                ..old(self)@
            }),
            outcome == outcome_of(Progress { tracker: old(self)@.tracker, run: *run }),
    {
        self.watch.stop(reading);
        self.tracker.outcome(run)
    }

    /// Drop everything and start over, the timings included.
    pub fn reset(&mut self)
        requires
            old(self).inner().wf(),
        ensures
            final(self).inner().wf(),
            final(self).inner().settings() == old(self).inner().settings(),
            final(self).inner().front_end() == old(self).inner().front_end(),
            final(self)@ == (TimedSnapshot {
                tracker: fresh::<V, X, P, C>(),
                watch: set_going::<T>(None),
            }),
    {
        self.tracker.reset();
        self.watch = Stopwatch::start(None);
    }

    /// Adopt a pose supplied by relocalization and rebuild around it.
    pub fn relocalized_to(&mut self, pose: P)
        requires
            old(self).inner().wf(),
        ensures
            final(self).inner().wf(),
            final(self).inner().settings() == old(self).inner().settings(),
            final(self).inner().front_end() == old(self).inner().front_end(),
            final(self)@ == (TimedSnapshot {
                tracker: relocalized(old(self)@.tracker, pose),
                ..old(self)@
            }),
    {
        self.tracker.relocalized_to(pose);
    }

    /// Express everything in another frame.
    pub fn apply_similarity(&mut self, t: &Transformed<X, P, C>)
        requires
            old(self).inner().wf(),
            t.covers(old(self)@.tracker),
        ensures
            final(self).inner().wf(),
            final(self).inner().settings() == old(self).inner().settings(),
            final(self).inner().front_end() == old(self).inner().front_end(),
            final(self)@ == (TimedSnapshot {
                tracker: transformed(old(self)@.tracker, *t),
                ..old(self)@
            }),
    {
        self.tracker.apply_similarity(t);
    }

    /// Go on without the graphics device.
    pub fn fall_back_to_cpu(&mut self)
        ensures
            final(self).inner().front_end() == Backend::Cpu,
            final(self).inner().settings() == old(self).inner().settings(),
            old(self).inner().wf() ==> final(self).inner().wf(),
            final(self)@ == old(self)@,
    {
        self.tracker.fall_back_to_cpu();
    }
}

// ---------------------------------------------------------------------------
// Timed sessions
// ---------------------------------------------------------------------------

/// When the clock is read during a frame.
#[derive(Debug, Clone, Copy, PartialEq, Eq, Structural)]
pub enum Moment {
    /// Before anything.
    Start,
    /// Once the frame is there.
    Uploaded,
    /// Once the pyramid is built.
    PyramidBuilt,
    /// Once a stage has been answered.
    Answered(Stage),
    /// After everything.
    End,
}

/// Something that happens to a tracker, and what the clock says meanwhile: nothing
/// where there is none.
#[verifier::reject_recursive_types(V)]
#[verifier::reject_recursive_types(X)]
#[verifier::reject_recursive_types(P)]
#[verifier::reject_recursive_types(C)]
#[verifier::reject_recursive_types(T)]
pub struct TimedEvent<V, X, P, C, T> {
    pub event: Event<V, X, P, C>,
    pub clock: spec_fn(Moment) -> Option<T>,
}

/// A frame under way and the stopwatch.
pub struct TimedProgress<V, X, P, C, T> {
    pub frame: Progress<V, X, P, C>,
    pub watch: Stopwatch<T>,
}

/// A frame and its stopwatch after at most `n` more answers.
pub open spec fn timed_played<V, X, P, C, T>(
    p: TimedProgress<V, X, P, C, T>,
    config: TrackConfig,
    geometry: spec_fn(Progress<V, X, P, C>) -> Answer<V, X, P, C>,
    clock: spec_fn(Moment) -> Option<T>,
    n: nat,
) -> TimedProgress<V, X, P, C, T>
    decreases n,
{
    if n == 0 || p.frame.run.stage == Stage::Done {
        p
    } else {
        let next = proceeded(p.frame, config, geometry(p.frame));
        timed_played(
            TimedProgress {
                frame: next,
                watch: after_answer(
                    p.watch,
                    p.frame.run.stage,
                    next.run.stage,
                    clock(Moment::Answered(p.frame.run.stage)),
                ),
            },
            config,
            geometry,
            clock,
            (n - 1) as nat,
        )
    }
}

/// A frame from beginning to end, timed.
pub open spec fn timed_frame_of<V, X, P, C, T>(
    s: Snapshot<V, X, P, C>,
    config: TrackConfig,
    e: TimedEvent<V, X, P, C, T>,
) -> TimedProgress<V, X, P, C, T>
    recommends
        e.event is Frame,
{
    let uploaded = lapped(
        set_going((e.clock)(Moment::Start)),
        Part::Upload,
        (e.clock)(Moment::Uploaded),
    );
    let built = lapped(uploaded, Part::Pyramid, (e.clock)(Moment::PyramidBuilt));
    let start = begun(s, e.event->low_light, e.event->refill_floor, e.event->origin);
    let over = timed_played(
        TimedProgress { frame: start, watch: built },
        config,
        e.event->geometry,
        e.clock,
        answers_left(Stage::Flow),
    );
    TimedProgress { watch: stopped(over.watch, (e.clock)(Moment::End)), ..over }
}

/// What is left of a tracker and its stopwatch after an event.
pub open spec fn after_timed_event<V, X, P, C, T>(
    s: TimedSnapshot<V, X, P, C, T>,
    config: TrackConfig,
    e: TimedEvent<V, X, P, C, T>,
) -> TimedSnapshot<V, X, P, C, T> {
    match e.event {
        Event::Frame { .. } => {
            let p = timed_frame_of(s.tracker, config, e);
            TimedSnapshot { tracker: p.frame.tracker, watch: p.watch }
        },
        Event::Reset => TimedSnapshot { tracker: fresh(), watch: set_going(None) },
        Event::Relocalized { pose } => TimedSnapshot {
            tracker: relocalized(s.tracker, pose),
            ..s
        },
        Event::Moved { to } => TimedSnapshot { tracker: transformed(s.tracker, to), ..s },
    }
}

/// A tracker and its stopwatch after a session.
pub open spec fn timed_session<V, X, P, C, T>(
    config: TrackConfig,
    events: Seq<TimedEvent<V, X, P, C, T>>,
) -> TimedSnapshot<V, X, P, C, T>
    decreases events.len(),
{
    if events.len() == 0 {
        TimedSnapshot { tracker: fresh(), watch: set_going(None) }
    } else {
        after_timed_event(timed_session(config, events.drop_last()), config, events.last())
    }
}

/// What event `k` of a timed session gave, where it was a frame.
pub open spec fn timed_outcome_at<V, X, P, C, T>(
    config: TrackConfig,
    events: Seq<TimedEvent<V, X, P, C, T>>,
    k: int,
) -> Option<TrackOutcome<P, C>> {
    if events[k].event is Frame {
        Some(
            outcome_of(
                timed_frame_of(
                    timed_session(config, events.take(k)).tracker,
                    config,
                    events[k],
                ).frame,
            ),
        )
    } else {
        None
    }
}

/// The same session without its clock.
pub open spec fn without_clock<V, X, P, C, T>(events: Seq<TimedEvent<V, X, P, C, T>>) -> Seq<
    Event<V, X, P, C>,
> {
    Seq::new(events.len(), |i: int| events[i].event)
}

/// Whether a session had no clock.
pub open spec fn has_no_clock<V, X, P, C, T>(events: Seq<TimedEvent<V, X, P, C, T>>) -> bool {
    forall|i: int, m: Moment|
        #![trigger (events[i].clock)(m)]
        0 <= i < events.len() ==> (events[i].clock)(m) is None
}

proof fn lemma_timed_played<V, X, P, C, T>(
    p: TimedProgress<V, X, P, C, T>,
    config: TrackConfig,
    geometry: spec_fn(Progress<V, X, P, C>) -> Answer<V, X, P, C>,
    clock: spec_fn(Moment) -> Option<T>,
    n: nat,
)
    ensures
        timed_played(p, config, geometry, clock, n).frame == played(p.frame, config, geometry, n),
        p.watch == set_going::<T>(None) && (forall|m: Moment| #[trigger] clock(m) is None)
            ==> timed_played(p, config, geometry, clock, n).watch == p.watch,
    decreases n,
{
    reveal_with_fuel(played, 2);
    if n > 0 && p.frame.run.stage != Stage::Done {
        let next = proceeded(p.frame, config, geometry(p.frame));
        let stage = p.frame.run.stage;
        let reading = clock(Moment::Answered(stage));
        let watch = after_answer(p.watch, stage, next.run.stage, reading);
        lemma_timed_played(
            TimedProgress { frame: next, watch },
            config,
            geometry,
            clock,
            (n - 1) as nat,
        );
    }
}

proof fn lemma_timed_frame<V, X, P, C, T>(
    s: Snapshot<V, X, P, C>,
    config: TrackConfig,
    e: TimedEvent<V, X, P, C, T>,
)
    requires
        e.event is Frame,
    ensures
        timed_frame_of(s, config, e).frame == frame_of(s, config, e.event),
        (forall|m: Moment| #[trigger] (e.clock)(m) is None) ==> timed_frame_of(s, config, e).watch
            == set_going::<T>(None),
{
    let uploaded = lapped(
        set_going((e.clock)(Moment::Start)),
        Part::Upload,
        (e.clock)(Moment::Uploaded),
    );
    let built = lapped(uploaded, Part::Pyramid, (e.clock)(Moment::PyramidBuilt));
    let start = begun(s, e.event->low_light, e.event->refill_floor, e.event->origin);
    lemma_timed_played(
        TimedProgress { frame: start, watch: built },
        config,
        e.event->geometry,
        e.clock,
        answers_left(Stage::Flow),
    );
}

/// A clock changes nothing but the timings: a session leaves the tracker as the
/// same session without a clock does, and every frame gives the same outcome.
/// Without a clock there are no timings.
pub proof fn law_clock_changes_nothing<V, X, P, C, T>(
    config: TrackConfig,
    events: Seq<TimedEvent<V, X, P, C, T>>,
)
    ensures
        timed_session(config, events).tracker == session(config, without_clock(events)),
        forall|k: int|
            0 <= k < events.len() ==> #[trigger] timed_outcome_at(config, events, k) == outcome_at(
                config,
                without_clock(events),
                k,
            ),
        has_no_clock(events) ==> timed_session(config, events).watch.timings == untimed::<T>(),
{
    lemma_clock_changes_no_state(config, events);
    let plain = without_clock(events);
    assert forall|k: int| 0 <= k < events.len() implies #[trigger] timed_outcome_at(
        config,
        events,
        k,
    ) == outcome_at(config, plain, k) by {
        lemma_clock_changes_no_state(config, events.take(k));
        assert(without_clock(events.take(k)) =~= plain.take(k));
        if events[k].event is Frame {
            lemma_timed_frame(session(config, plain.take(k)), config, events[k]);
        }
    }
}

proof fn lemma_clock_changes_no_state<V, X, P, C, T>(
    config: TrackConfig,
    events: Seq<TimedEvent<V, X, P, C, T>>,
)
    ensures
        timed_session(config, events).tracker == session(config, without_clock(events)),
        has_no_clock(events) ==> timed_session(config, events).watch == set_going::<T>(None),
    decreases events.len(),
{
    if events.len() > 0 {
        let before = events.drop_last();
        let e = events.last();
        lemma_clock_changes_no_state(config, before);
        assert(without_clock(events).drop_last() =~= without_clock(before));
        assert(without_clock(events).last() == e.event);
        if has_no_clock(events) {
            assert(has_no_clock(before)) by {
                assert forall|i: int, m: Moment|
                    #![trigger (before[i].clock)(m)]
                    0 <= i < before.len() implies (before[i].clock)(m) is None by {
                    assert((events[i].clock)(m) is None);
                }
            }
            assert forall|m: Moment| #[trigger] (e.clock)(m) is None by {
                assert((events[events.len() - 1].clock)(m) is None);
            }
        }
        if e.event is Frame {
            lemma_timed_frame(session(config, without_clock(before)), config, e);
        }
        assert(session(config, without_clock(events)) == after_event(
            session(config, without_clock(before)),
            config,
            e.event,
        ));
    }
}

/// Two clocks, or a clock and none, give the same trajectory: sessions that differ
/// in their clocks alone leave the tracker in the same state and give the same
/// outcomes.
pub proof fn law_outcomes_do_not_depend_on_the_clock<V, X, P, C, T>(
    config: TrackConfig,
    one: Seq<TimedEvent<V, X, P, C, T>>,
    other: Seq<TimedEvent<V, X, P, C, T>>,
)
    requires
        without_clock(one) == without_clock(other),
    ensures
        timed_session(config, one).tracker == timed_session(config, other).tracker,
        forall|k: int|
            0 <= k < one.len() ==> #[trigger] timed_outcome_at(config, one, k) == timed_outcome_at(
                config,
                other,
                k,
            ),
{
    law_clock_changes_nothing(config, one);
    law_clock_changes_nothing(config, other);
    assert(one.len() == without_clock(one).len());
    assert(other.len() == without_clock(other).len());
}

/// A part lasts from the latest reading to the one that ends it, and only its own time
/// is set by that; the next part begins there. Without a reading nothing is timed.
pub proof fn law_lap_times_its_own_part<T>(w: Stopwatch<T>, part: Part, from: T, to: T)
    requires
        w.mark == Some(from),
    ensures
        ({
            let after = lapped(w, part, Some(to));
            let lap = Some(Lap { from, to });
            let (a, b) = (w.timings, after.timings);
            &&& after.mark == Some(to) && after.began == w.began
            &&& b.upload == (if part == Part::Upload {
                lap
            } else {
                a.upload
            })
            &&& b.pyramid == (if part == Part::Pyramid {
                lap
            } else {
                a.pyramid
            })
            &&& b.flow == (if part == Part::Flow {
                lap
            } else {
                a.flow
            })
            &&& b.pnp == (if part == Part::Pose {
                lap
            } else {
                a.pnp
            })
            &&& b.corners == (if part == Part::Corners {
                lap
            } else {
                a.corners
            })
            &&& b.total == a.total
            &&& lapped(w, part, None) == w
            &&& lapped(Stopwatch { mark: None, ..w }, part, Some(to)) == (Stopwatch {
                mark: Some(to),
                ..w
            })
        }),
{
}

/// The total lasts from the first reading to the last, and every stage is timed: flow and
/// pose by themselves, and all that comes after them once the frame is over.
pub proof fn law_total_lasts_from_start_to_end<T>(
    w: Stopwatch<T>,
    start: T,
    end: T,
    reading: Option<T>,
    answered: Stage,
    next: Stage,
)
    requires
        w.began == Some(start),
    ensures
        stopped(w, Some(end)).timings.total == Some(Lap { from: start, to: end }),
        stopped(w, None) == w,
        set_going(Some(start)).began == Some(start) && set_going(Some(start)).mark == Some(start),
        after_answer(w, Stage::Flow, next, reading) == lapped(w, Part::Flow, reading),
        after_answer(w, Stage::Pose, next, reading) == lapped(w, Part::Pose, reading),
        answered != Stage::Flow && answered != Stage::Pose && next == Stage::Done ==> after_answer(
            w,
            answered,
            next,
            reading,
        ) == lapped(w, Part::Corners, reading),
        answered != Stage::Flow && answered != Stage::Pose && next != Stage::Done ==> after_answer(
            w,
            answered,
            next,
            reading,
        ) == w,
{
}

/// Answers time their own parts: the upload, the pyramid and the beginning stay.
proof fn lemma_answers_keep_the_beginning<V, X, P, C, T>(
    p: TimedProgress<V, X, P, C, T>,
    config: TrackConfig,
    geometry: spec_fn(Progress<V, X, P, C>) -> Answer<V, X, P, C>,
    clock: spec_fn(Moment) -> Option<T>,
    n: nat,
)
    ensures
        ({
            let w = timed_played(p, config, geometry, clock, n).watch;
            &&& w.began == p.watch.began
            &&& w.timings.upload == p.watch.timings.upload
            &&& w.timings.pyramid == p.watch.timings.pyramid
        }),
    decreases n,
{
    if n > 0 && p.frame.run.stage != Stage::Done {
        let next = proceeded(p.frame, config, geometry(p.frame));
        lemma_answers_keep_the_beginning(
            TimedProgress {
                frame: next,
                watch: after_answer(
                    p.watch,
                    p.frame.run.stage,
                    next.run.stage,
                    clock(Moment::Answered(p.frame.run.stage)),
                ),
            },
            config,
            geometry,
            clock,
            (n - 1) as nat,
        );
    }
}

/// Once the flow is over its time stays.
proof fn lemma_answers_keep_the_flow<V, X, P, C, T>(
    p: TimedProgress<V, X, P, C, T>,
    config: TrackConfig,
    geometry: spec_fn(Progress<V, X, P, C>) -> Answer<V, X, P, C>,
    clock: spec_fn(Moment) -> Option<T>,
    n: nat,
)
    requires
        answers_fit(p.frame, config, geometry, n),
        p.frame.run.stage != Stage::Flow,
    ensures
        timed_played(p, config, geometry, clock, n).watch.timings.flow == p.watch.timings.flow,
    decreases n,
{
    if n > 0 && p.frame.run.stage != Stage::Done {
        reveal_with_fuel(answers_fit, 2);
        let next = proceeded(p.frame, config, geometry(p.frame));
        lemma_answers_keep_the_flow(
            TimedProgress {
                frame: next,
                watch: after_answer(
                    p.watch,
                    p.frame.run.stage,
                    next.run.stage,
                    clock(Moment::Answered(p.frame.run.stage)),
                ),
            },
            config,
            geometry,
            clock,
            (n - 1) as nat,
        );
    }
}

/// Once the pose is over its time stays.
proof fn lemma_answers_keep_the_pose<V, X, P, C, T>(
    p: TimedProgress<V, X, P, C, T>,
    config: TrackConfig,
    geometry: spec_fn(Progress<V, X, P, C>) -> Answer<V, X, P, C>,
    clock: spec_fn(Moment) -> Option<T>,
    n: nat,
)
    requires
        answers_fit(p.frame, config, geometry, n),
        p.frame.run.stage != Stage::Flow,
        p.frame.run.stage != Stage::Pose,
    ensures
        timed_played(p, config, geometry, clock, n).watch.timings.pnp == p.watch.timings.pnp,
    decreases n,
{
    if n > 0 && p.frame.run.stage != Stage::Done {
        reveal_with_fuel(answers_fit, 2);
        let next = proceeded(p.frame, config, geometry(p.frame));
        lemma_answers_keep_the_pose(
            TimedProgress {
                frame: next,
                watch: after_answer(
                    p.watch,
                    p.frame.run.stage,
                    next.run.stage,
                    clock(Moment::Answered(p.frame.run.stage)),
                ),
            },
            config,
            geometry,
            clock,
            (n - 1) as nat,
        );
    }
}

/// The parts of a frame are timed one behind the other: each begins at the reading that
/// ended the one before it, and the total lasts from the first to the last.
pub proof fn law_parts_are_timed_in_turn<V, X, P, C, T>(
    s: Snapshot<V, X, P, C>,
    config: TrackConfig,
    e: TimedEvent<V, X, P, C, T>,
)
    requires
        e.event is Frame,
        can_happen(s, config, e.event),
        forall|m: Moment| #[trigger] (e.clock)(m) is Some,
    ensures
        ({
            let t = timed_frame_of(s, config, e).watch.timings;
            let start = (e.clock)(Moment::Start)->0;
            let uploaded = (e.clock)(Moment::Uploaded)->0;
            let built = (e.clock)(Moment::PyramidBuilt)->0;
            let followed = (e.clock)(Moment::Answered(Stage::Flow))->0;
            let posed = (e.clock)(Moment::Answered(Stage::Pose))->0;
            let end = (e.clock)(Moment::End)->0;
            &&& t.upload == Some(Lap { from: start, to: uploaded })
            &&& t.pyramid == Some(Lap { from: uploaded, to: built })
            &&& t.flow == Some(Lap { from: built, to: followed })
            &&& t.pnp == Some(Lap { from: followed, to: posed })
            &&& t.total == Some(Lap { from: start, to: end })
        }),
{
    let geometry = e.event->geometry;
    let uploaded = lapped(
        set_going((e.clock)(Moment::Start)),
        Part::Upload,
        (e.clock)(Moment::Uploaded),
    );
    let built = lapped(uploaded, Part::Pyramid, (e.clock)(Moment::PyramidBuilt));
    let start = begun(s, e.event->low_light, e.event->refill_floor, e.event->origin);
    let p0 = TimedProgress { frame: start, watch: built };
    let n = answers_left(Stage::Flow);
    lemma_answers_keep_the_beginning(p0, config, geometry, e.clock, n);
    reveal_with_fuel(answers_fit, 3);
    let f1 = proceeded(start, config, geometry(start));
    let p1 = TimedProgress {
        frame: f1,
        watch: lapped(built, Part::Flow, (e.clock)(Moment::Answered(Stage::Flow))),
    };
    assert(timed_played(p0, config, geometry, e.clock, n) == timed_played(
        p1,
        config,
        geometry,
        e.clock,
        (n - 1) as nat,
    ));
    lemma_answers_keep_the_flow(p1, config, geometry, e.clock, (n - 1) as nat);
    let f2 = proceeded(f1, config, geometry(f1));
    let p2 = TimedProgress {
        frame: f2,
        watch: lapped(p1.watch, Part::Pose, (e.clock)(Moment::Answered(Stage::Pose))),
    };
    assert(timed_played(p1, config, geometry, e.clock, (n - 1) as nat) == timed_played(
        p2,
        config,
        geometry,
        e.clock,
        (n - 2) as nat,
    ));
    lemma_answers_keep_the_pose(p2, config, geometry, e.clock, (n - 2) as nat);
}

} // verus!
