//! The per-frame frontend and its local map.

use wslam::track::frame::{Answer, FirstMap, Stage};
use wslam::track::local_map::{LocalLandmark, LocalMap};
use wslam::track::timing::{Part, TimedTracker};
use wslam::track::tracker::{
    better_solve, Backend, Covariance, FailureCounts, Feature, FeatureState, FlowSummary,
    LimitedReason, Moved, PoseSolve, Seed, SolveSummary, TrackConfig, Tracker, TrackingState,
    Transformed, ABANDON_MAP_AFTER_FAILURES,
};

type T = Tracker<(i32, i32), i32, i32, i32>;
type Timed = TimedTracker<(i32, i32), i32, i32, i32, u64>;

fn small() -> TrackConfig {
    TrackConfig {
        max_features: 40,
        min_features: 10,
        keyframe_min_frames: 2,
        ..TrackConfig::default()
    }
}

fn corners(n: i32) -> Vec<Moved<(i32, i32)>> {
    (0..n)
        .map(|i| Moved {
            px: (i, 0),
            px_undist: (i, 1),
        })
        .collect()
}

fn stay(features: &[Feature<(i32, i32)>]) -> Vec<Option<Moved<(i32, i32)>>> {
    features
        .iter()
        .filter(|f| f.state != FeatureState::Lost)
        .map(|f| {
            Some(Moved {
                px: (f.px.0, f.px.1 + 1),
                px_undist: (f.px_undist.0, f.px_undist.1 + 1),
            })
        })
        .collect()
}

/// What the geometry says of one frame.
struct Scripted {
    flow: Option<Vec<Option<Moved<(i32, i32)>>>>,
    solve: Option<PoseSolve<i32, i32>>,
    bootstrap: Option<Vec<Seed<i32>>>,
    corners: i32,
    dark: bool,
}

impl Scripted {
    fn blank() -> Scripted {
        Scripted {
            flow: None,
            solve: None,
            bootstrap: None,
            corners: 0,
            dark: false,
        }
    }
}

fn step(t: &mut T, mut s: Scripted) -> (TrackingState, bool, SolveSummary) {
    let mut run = t.begin(s.dark, 30, 0);
    while run.stage != Stage::Done {
        let answer = match run.stage {
            Stage::Flow => Answer::Flow {
                results: s.flow.take(),
                is_wide: false,
            },
            Stage::Pose => Answer::Pose {
                solve: s.solve.take(),
            },
            Stage::Motion => Answer::Motion {
                has_moved: true,
                starving_below: 0,
            },
            Stage::Points => Answer::Points {
                points: t.first_sightings().iter().map(|f| f.map(|p| p.0)).collect(),
            },
            Stage::Window => Answer::Window { adjusted: None },
            Stage::FirstMap => Answer::FirstMap {
                map: match (t.bootstrap_matches(8), s.bootstrap.take()) {
                    (Some(_), Some(seeds)) => Some(FirstMap {
                        pose: 100,
                        covariance: Some(7),
                        seeds,
                    }),
                    _ => None,
                },
            },
            Stage::Corners => Answer::Corners {
                corners: corners(s.corners.min(t.refill_budget() as i32)),
            },
            Stage::Done => unreachable!(),
        };
        t.proceed(&mut run, answer);
    }
    assert_eq!(run.bootstrapped, run.is_keyframe && t.window_poses().is_empty());
    let out = t.outcome(&run);
    assert_eq!((out.state, out.pose), (t.state(), t.pose()));
    assert_eq!((out.inlier_count, out.tracked_count), (run.solve.inliers, run.flow.survived));
    assert_eq!((out.is_keyframe, out.bootstrapped), (run.is_keyframe, run.bootstrapped));
    (t.state(), run.is_keyframe, run.solve)
}

fn seeds(n: usize) -> Vec<Seed<i32>> {
    (0..n)
        .map(|i| Seed {
            match_index: i,
            position: i as i32,
        })
        .collect()
}

fn solved(pose: i32, n: usize) -> Option<PoseSolve<i32, i32>> {
    Some(PoseSolve {
        pose,
        covariance: Some(5),
        inliers: vec![true; n],
        inlier_count: n,
    })
}

/// A tracker that has just built its first map.
fn running() -> T {
    let mut t = T::new(small(), false);
    let (state, _, _) = step(
        &mut t,
        Scripted {
            corners: 40,
            ..Scripted::blank()
        },
    );
    assert_eq!(state, TrackingState::Initializing);
    let flow = stay(t.features());
    let (state, keyframe, solve) = step(
        &mut t,
        Scripted {
            flow: Some(flow),
            bootstrap: Some(seeds(30)),
            ..Scripted::blank()
        },
    );
    assert_eq!(state, TrackingState::Tracking);
    assert!(keyframe);
    assert_eq!(solve.inliers, 30);
    t
}

#[test]
fn a_bootstrap_seeds_the_map_and_tracking_starts() {
    let t = running();
    assert_eq!(t.local_map().len(), 30);
    assert_eq!(t.pose(), Some(100));
    assert!(matches!(
        t.covariance(),
        Covariance::Solved {
            value: 7,
            widenings: 0
        }
    ));
    assert_eq!(t.keyframe_pose(), Some(100));
    assert_eq!(t.reference_pose(), None);
    assert_eq!(t.correspondences().len(), 30);
    assert_eq!(t.features()[3].landmark, Some(3));
    assert_eq!(t.features()[35].landmark, None);
    // The first frame had no pose; the one that founded the map has one.
    assert_eq!(
        t.failures(),
        FailureCounts {
            awaiting_bootstrap: 1,
            ..FailureCounts::default()
        }
    );
}

#[test]
fn too_few_landmarks_leave_no_map_behind() {
    let mut t = T::new(small(), false);
    step(
        &mut t,
        Scripted {
            corners: 40,
            ..Scripted::blank()
        },
    );
    let flow = stay(t.features());
    let (state, keyframe, _) = step(
        &mut t,
        Scripted {
            flow: Some(flow),
            bootstrap: Some(seeds(5)),
            ..Scripted::blank()
        },
    );
    assert_eq!(state, TrackingState::Initializing);
    assert!(!keyframe);
    assert!(t.local_map().is_empty());
    assert!(t.features().iter().all(|f| f.landmark.is_none()));
}

#[test]
fn features_that_flow_loses_are_shown_for_one_frame() {
    let mut t = running();
    let mut flow = stay(t.features());
    flow[0] = None;
    flow[39] = None;
    let old: Vec<u64> = t.features().iter().map(|f| f.id).collect();
    step(
        &mut t,
        Scripted {
            flow: Some(flow),
            solve: solved(101, 29),
            corners: 40,
            ..Scripted::blank()
        },
    );
    // Thirty-eight are left, which is above the floor: nothing is refilled.
    assert_eq!((t.features().len(), t.live_features()), (40, 38));
    assert!(t.features().iter().all(|f| old.contains(&f.id)));
    let lost: Vec<usize> = (0..40)
        .filter(|&i| t.features()[i].state == FeatureState::Lost)
        .collect();
    assert_eq!(lost, vec![0, 39]);
    assert_eq!((t.features()[0].age, t.features()[0].landmark), (1, Some(0)));
    assert_eq!(t.features()[1].age, 2);
    assert_eq!(t.features()[1].state, FeatureState::Followed);
    assert_eq!(t.correspondences().len(), 29, "a lost feature is not in view");
    assert_eq!(t.landmarks_in_view(), 29);

    // The next frame begins without them.
    t.begin_frame();
    assert_eq!(t.features().len(), 38);
    assert!(t.features().iter().all(|f| f.id != old[0] && f.id != old[39]));
}

#[test]
fn a_lone_feature_that_flow_misses_stays_as_lost() {
    let mut t = T::new(small(), false);
    step(
        &mut t,
        Scripted {
            corners: 1,
            ..Scripted::blank()
        },
    );
    let px = t.features()[0].px;
    step(
        &mut t,
        Scripted {
            flow: Some(vec![None]),
            ..Scripted::blank()
        },
    );
    assert_eq!(t.features().len(), 1);
    assert_eq!(t.features()[0].state, FeatureState::Lost);
    assert_eq!(t.features()[0].px, px);
    assert_eq!(t.live_features(), 0);
    step(&mut t, Scripted::blank());
    assert!(t.features().is_empty());
}

#[test]
fn lost_features_make_room_for_new_ones() {
    let mut t = running();
    let mut flow = stay(t.features());
    for f in flow.iter_mut().skip(15) {
        *f = None;
    }
    step(
        &mut t,
        Scripted {
            flow: Some(flow),
            solve: solved(101, 15),
            corners: 20,
            ..Scripted::blank()
        },
    );
    // Fifteen followed, twenty new, and room for five of the twenty-five lost.
    assert_eq!((t.features().len(), t.live_features()), (40, 35));
    let ids: Vec<u64> = t.features().iter().map(|f| f.id).collect();
    let expected: Vec<u64> = (0..20).chain(40..60).collect();
    assert_eq!(ids, expected);
    assert!(t.features()[15..20].iter().all(|f| f.state == FeatureState::Lost));
}

#[test]
fn drained_features_are_topped_up_to_the_budget() {
    let mut t = running();
    let mut flow = stay(t.features());
    for f in flow.iter_mut().skip(20) {
        *f = None;
    }
    step(
        &mut t,
        Scripted {
            flow: Some(flow),
            solve: solved(101, 20),
            corners: 99,
            ..Scripted::blank()
        },
    );
    assert_eq!(t.features().len(), 40);
    let ids: Vec<u64> = t.features().iter().map(|f| f.id).collect();
    assert!(ids.windows(2).all(|w| w[0] < w[1]), "ids are never reused");
    assert_eq!(ids[20], 40);
    assert_eq!(t.features()[20].state, FeatureState::New);
}

#[test]
fn outliers_are_marked_and_inliers_observed() {
    let mut t = running();
    let mut inliers = vec![true; 30];
    inliers[4] = false;
    t.begin_frame();
    let s = t.record_solve(Some(PoseSolve {
        pose: 102,
        covariance: None,
        inliers,
        inlier_count: 29,
    }));
    assert_eq!((s.solved, s.inliers), (true, 29));
    assert_eq!(t.features()[4].state, FeatureState::Outlier);
    assert_eq!(t.features()[5].state, FeatureState::Followed);
    assert_eq!(t.local_map().get(4).unwrap().observations, 2);
    assert_eq!(t.local_map().get(5).unwrap().observations, 3);
    assert!(matches!(t.covariance(), Covariance::Unbounded));
}

#[test]
fn a_failed_solve_widens_the_covariance_and_holds_the_pose() {
    let mut t = running();
    for n in 1..=2u32 {
        let flow = stay(t.features());
        step(
            &mut t,
            Scripted {
                flow: Some(flow),
                ..Scripted::blank()
            },
        );
        match t.covariance() {
            Covariance::Solved { value, widenings } => assert_eq!((value, widenings), (7, n)),
            Covariance::Unbounded => panic!("the last solve is still known"),
        }
        assert_eq!(t.pose(), Some(100), "coasting");
    }
}

#[test]
fn three_failures_in_a_row_mean_lost() {
    let mut t = running();
    let mut states = Vec::new();
    for _ in 0..4 {
        let flow = stay(t.features());
        let (state, _, _) = step(
            &mut t,
            Scripted {
                flow: Some(flow),
                ..Scripted::blank()
            },
        );
        states.push(state);
    }
    let limited = TrackingState::Limited(LimitedReason::InsufficientFeatures);
    assert_eq!(
        states,
        vec![limited, limited, TrackingState::Lost, TrackingState::Lost]
    );
    assert!(!t.state().has_pose());
}

#[test]
fn a_solved_frame_in_the_dark_is_limited() {
    let mut t = running();
    let flow = stay(t.features());
    let (state, _, _) = step(
        &mut t,
        Scripted {
            flow: Some(flow),
            solve: solved(101, 30),
            dark: true,
            ..Scripted::blank()
        },
    );
    assert_eq!(state, TrackingState::Limited(LimitedReason::LowLight));
    assert!(state.has_pose());
}

#[test]
fn losing_every_feature_is_blamed_on_the_scene() {
    let mut t = running();
    let flow = vec![None; t.features().len()];
    let (state, _, _) = step(
        &mut t,
        Scripted {
            flow: Some(flow),
            ..Scripted::blank()
        },
    );
    assert_eq!(
        state,
        TrackingState::Limited(LimitedReason::InsufficientFeatures)
    );
}

#[test]
fn a_collapse_of_flow_in_a_full_frame_is_motion() {
    let mut t = running();
    let mut flow = stay(t.features());
    for f in flow.iter_mut().skip(5) {
        *f = None;
    }
    let (state, _, _) = step(
        &mut t,
        Scripted {
            flow: Some(flow),
            corners: 30,
            ..Scripted::blank()
        },
    );
    assert_eq!(state, TrackingState::Limited(LimitedReason::ExcessiveMotion));
}

#[test]
fn wide_flow_is_excessive_motion() {
    let mut t = running();
    let before = t.begin_frame();
    let flow = t.follow(&stay(t.features()));
    let solve = t.record_solve(solved(101, 30));
    assert_eq!(
        t.classify(false, &flow, true, &solve),
        TrackingState::Limited(LimitedReason::ExcessiveMotion)
    );
    assert_eq!(
        t.end_frame(before, false, &flow, false, &solve),
        TrackingState::Tracking
    );
}

#[test]
fn an_unseen_map_is_given_up_and_rebuilt() {
    let mut t = running();
    for _ in 0..ABANDON_MAP_AFTER_FAILURES {
        step(&mut t, Scripted::blank());
    }
    assert!(t.local_map().is_empty());
    assert_eq!(t.pose(), None);
    assert_eq!(t.reference_pose(), Some(0), "a fresh reference is armed");
    assert!(t.features().iter().all(|f| f.landmark.is_none()));
    let flow = stay(t.features());
    let (state, keyframe, _) = step(
        &mut t,
        Scripted {
            flow: Some(flow),
            bootstrap: Some(seeds(12)),
            ..Scripted::blank()
        },
    );
    assert!(keyframe);
    assert_eq!(state, TrackingState::Tracking);
    // The new landmarks do not take the old ones' ids.
    assert_eq!(t.local_map().len(), 12);
    assert!(t.local_map().landmarks().iter().all(|l| l.id >= 30));
}

#[test]
fn a_stale_reference_is_replaced() {
    let mut t = T::new(small(), false);
    // A reference taken on a blank frame can never match.
    step(&mut t, Scripted::blank());
    assert_eq!(t.reference_pose(), Some(0));
    assert!(t.bootstrap_matches(8).is_none());
    step(
        &mut t,
        Scripted {
            corners: 40,
            ..Scripted::blank()
        },
    );
    assert!(t.bootstrap_matches(8).is_some());
}

#[test]
fn a_reset_tracker_starts_over() {
    let mut t = running();
    t.reset();
    assert_eq!(t.state(), TrackingState::Initializing);
    assert!(t.local_map().is_empty());
    assert!(t.features().is_empty());
    assert!(t.pose().is_none());
    assert_eq!(t.failures(), FailureCounts::default());
    assert!(matches!(t.covariance(), Covariance::Unbounded));
    assert_eq!(t.reference_pose(), None);
    assert_eq!(t.keyframe_pose(), None);
    assert!(t.window_poses().is_empty());

    // And it re-initialises rather than being merely emptied.
    step(
        &mut t,
        Scripted {
            corners: 40,
            ..Scripted::blank()
        },
    );
    let flow = stay(t.features());
    let (state, _, _) = step(
        &mut t,
        Scripted {
            flow: Some(flow),
            bootstrap: Some(seeds(30)),
            ..Scripted::blank()
        },
    );
    assert_eq!(state, TrackingState::Tracking);
}

#[test]
fn a_reset_session_replays_identically() {
    let mut used = running();
    for i in 0..5 {
        let flow = stay(used.features());
        let n = used.correspondences().len();
        step(
            &mut used,
            Scripted {
                flow: Some(flow),
                solve: solved(101 + i, n),
                corners: 40,
                ..Scripted::blank()
            },
        );
    }
    step(&mut used, Scripted::blank());
    used.reset();
    let mut new = T::new(small(), false);
    for i in 0..12 {
        let script = |t: &T| Scripted {
            flow: (i > 0).then(|| {
                let mut flow = stay(t.features());
                flow[i] = None;
                flow
            }),
            solve: if i == 7 {
                None
            } else {
                solved(i as i32, t.correspondences().len())
            },
            bootstrap: (i == 2).then(|| seeds(20)),
            corners: 40,
            dark: i == 9,
        };
        let a = script(&used);
        let b = script(&new);
        assert_eq!(step(&mut used, a), step(&mut new, b), "frame {i}");
        assert_eq!(used.pose(), new.pose());
        assert_eq!(used.failures(), new.failures());
        assert_eq!(used.local_map().len(), new.local_map().len());
        assert_eq!(used.window_poses(), new.window_poses());
        let ids = |t: &T| t.features().iter().map(|f| (f.id, f.landmark)).collect::<Vec<_>>();
        assert_eq!(ids(&used), ids(&new));
        assert!(used.features().len() <= 40);
    }
    assert!(!used.local_map().is_empty());
}

/// A session of three frames under a clock, and what each frame gave.
fn timed(readings: impl Fn(u64) -> Option<u64>) -> (Timed, Vec<String>) {
    let mut t = TimedTracker::new(small(), false);
    let mut ticks = 0;
    let mut now = || {
        ticks += 1;
        readings(ticks)
    };
    let mut outcomes = Vec::new();
    for i in 0..3 {
        t.start(now());
        t.lap(Part::Upload, now());
        t.lap(Part::Pyramid, now());
        let mut run = t.begin(false, 30, 0);
        while run.stage != Stage::Done {
            let answer = match run.stage {
                Stage::Flow => Answer::Flow {
                    results: (i > 0).then(|| stay(t.tracker().features())),
                    is_wide: false,
                },
                Stage::Pose => Answer::Pose {
                    solve: solved(i, 30),
                },
                Stage::Motion => Answer::Motion {
                    has_moved: false,
                    starving_below: 0,
                },
                Stage::FirstMap => Answer::FirstMap {
                    map: (i == 1).then(|| FirstMap {
                        pose: 100,
                        covariance: Some(7),
                        seeds: seeds(30),
                    }),
                },
                Stage::Corners => Answer::Corners {
                    corners: corners(t.tracker().refill_budget() as i32),
                },
                other => panic!("{other:?}"),
            };
            let reading = now();
            t.proceed(&mut run, answer, reading);
        }
        outcomes.push(format!("{:?}", t.finish(&run, now())));
    }
    (t, outcomes)
}

#[test]
fn a_clock_changes_nothing_but_the_timings() {
    let (quiet, a) = timed(|_| None);
    let (slow, b) = timed(|n| Some(n * n));
    assert_eq!(a, b);
    assert!(a[2].contains("Tracking") && a[1].contains("bootstrapped: true"));
    let t = quiet.timings();
    for lap in [t.upload, t.pyramid, t.corners, t.flow, t.pnp, t.total] {
        assert!(lap.is_none(), "without a clock there are no timings");
    }
    let t = slow.timings();
    let laps: Vec<(u64, u64)> = [t.upload, t.pyramid, t.flow, t.pnp, t.corners, t.total]
        .iter()
        .map(|l| l.map(|l| (l.from, l.to)).unwrap())
        .collect();
    // The third frame's readings follow each other from its first to its last.
    let first = laps[0].0;
    let root = (1..100u64).find(|n| n * n == first).unwrap();
    let square = |k: u64| (root + k) * (root + k);
    assert_eq!(
        laps,
        vec![
            (square(0), square(1)),
            (square(1), square(2)),
            (square(2), square(3)),
            (square(3), square(4)),
            (square(4), square(5)),
            (square(0), square(6)),
        ]
    );
}

#[test]
fn a_reset_clears_the_timings_and_a_relocalization_does_not() {
    let (mut t, _) = timed(Some);
    t.relocalized_to(5);
    assert!(t.timings().total.is_some());
    assert_eq!(t.tracker().pose(), Some(5));
    t.reset();
    assert!(t.timings().total.is_none());
    assert_eq!(t.tracker().pose(), None);
    t.fall_back_to_cpu();
    assert_eq!(t.tracker().backend(), Backend::Cpu);
}

#[test]
fn a_relocalized_tracker_waits_at_the_supplied_pose() {
    let mut t = running();
    t.relocalized_to(55);
    assert_eq!(t.pose(), Some(55));
    assert_eq!(t.state(), TrackingState::Initializing);
    assert!(t.local_map().is_empty());
    let (state, _, _) = step(
        &mut t,
        Scripted {
            corners: 40,
            ..Scripted::blank()
        },
    );
    assert_eq!(state, TrackingState::Initializing);
    assert_eq!(t.reference_pose(), Some(55));
}

#[test]
fn config_with_no_gpu_feature_falls_back_to_the_cpu_reference() {
    let config = TrackConfig {
        use_gpu: true,
        ..TrackConfig::default()
    };
    assert_eq!(T::new(config, false).backend(), Backend::Cpu);
    let mut t = T::new(config, true);
    assert_eq!(t.backend(), Backend::Gpu);
    t.fall_back_to_cpu();
    assert_eq!(t.backend(), Backend::Cpu);
    assert_eq!(T::new(TrackConfig::default(), true).backend(), Backend::Cpu);
}

#[test]
fn the_local_map_index_survives_culling() {
    let mut map = LocalMap::new();
    for id in 0..10u64 {
        map.insert(
            LocalLandmark {
                id,
                position: (id, 0, 1),
                observations: id as u32,
            },
            id,
        );
    }
    map.cull(20, 16, 100);
    assert_eq!(map.len(), 6, "frames 4..=20 is the retention window");
    assert_eq!(
        map.landmarks().iter().map(|l| l.id).collect::<Vec<_>>(),
        vec![4, 5, 6, 7, 8, 9]
    );
    for l in map.landmarks() {
        assert_eq!(map.get(l.id).map(|g| g.position), Some(l.position));
    }
    assert!(map.get(3).is_none());
    map.cull(20, 100, 3);
    assert_eq!(map.len(), 3);
    let ids: Vec<u64> = map.landmarks().iter().map(|l| l.id).collect();
    assert_eq!(ids, vec![7, 8, 9]);
    for l in map.landmarks() {
        assert!(map.get(l.id).is_some());
    }
}

#[test]
fn many_keyframes_leave_the_map_bounded() {
    let mut t = running();
    for i in 0..20 {
        let flow = stay(t.features());
        let n = t.correspondences().len();
        step(
            &mut t,
            Scripted {
                flow: Some(flow),
                solve: solved(101 + i, n),
                corners: 40,
                ..Scripted::blank()
            },
        );
        assert!(t.local_map().len() <= 4 * 40);
    }
    assert_eq!(t.state(), TrackingState::Tracking);
}

#[test]
fn keyframes_triangulate_what_the_last_one_saw() {
    let mut t = running();
    let mut promoted = 0;
    for i in 0..4 {
        let flow = stay(t.features());
        let n = t.correspondences().len();
        let (_, keyframe, _) = step(
            &mut t,
            Scripted {
                flow: Some(flow),
                solve: solved(101 + i, n),
                ..Scripted::blank()
            },
        );
        promoted += usize::from(keyframe);
    }
    // Every second frame at most, and the ten features that had no landmark get
    // one at the first keyframe.
    assert_eq!(promoted, 2);
    assert_eq!(t.local_map().len(), 40);
    assert_eq!(t.reference_landmarks(), 40);
    assert_eq!(t.window_poses(), vec![102, 104]);
    assert_eq!(t.newest_window_pose(), Some(104));
}

#[test]
fn a_window_is_adjusted_and_written_back() {
    let config = TrackConfig {
        local_ba_fixed: 1,
        local_ba_context: 0,
        local_ba_window: 3,
        ..small()
    };
    let mut t = T::new(config, false);
    step(
        &mut t,
        Scripted {
            corners: 40,
            ..Scripted::blank()
        },
    );
    let flow = stay(t.features());
    step(
        &mut t,
        Scripted {
            flow: Some(flow),
            bootstrap: Some(seeds(30)),
            ..Scripted::blank()
        },
    );
    for i in 0..4 {
        let flow = stay(t.features());
        let n = t.correspondences().len();
        step(
            &mut t,
            Scripted {
                flow: Some(flow),
                solve: solved(101 + i, n),
                ..Scripted::blank()
            },
        );
    }
    let w = t.window_problem().unwrap();
    assert_eq!(w.problem.poses, vec![102, 104]);
    assert_eq!(w.problem.fixed_poses, 1);
    assert_eq!(w.ids.len(), 40);
    assert_eq!(w.problem.observations.len(), 80);
    assert_eq!(w.problem.observations[41].keyframe, 1);
    assert_eq!(w.problem.observations[41].point, 1);

    let points: Vec<Option<i32>> = (0..40).map(|i| (i != 5).then_some(1000 + i)).collect();
    t.adopt_window(false, &w.ids, &points, &vec![1, 2], 3);
    assert_eq!(t.window_poses(), vec![102, 104]);
    let five = t.local_map().get(w.ids[5]).unwrap().position;
    t.adopt_window(true, &w.ids, &points, &vec![102, 204], 300);
    assert_eq!(t.window_poses(), vec![102, 204]);
    assert_eq!(t.pose(), Some(300));
    assert_eq!(t.keyframe_pose(), Some(204));
    assert_eq!(t.local_map().get(w.ids[5]).unwrap().position, five);
    assert_eq!(t.local_map().get(w.ids[6]).unwrap().position, 1006);
}

#[test]
fn a_similarity_moves_everything_at_once() {
    let mut t = running();
    let positions: Vec<i32> = t.local_map().landmarks().iter().map(|l| -l.position).collect();
    let moved = Transformed {
        pose: Some(-100),
        positions,
        window: Vec::new(),
        keyframe: Some(-100),
        bootstrap: None,
        covariance: Covariance::Unbounded,
    };
    t.apply_similarity(&moved);
    assert_eq!(t.pose(), Some(-100));
    assert_eq!(t.keyframe_pose(), Some(-100));
    assert_eq!(t.local_map().get(9).unwrap().position, -9);
    assert_eq!(t.features().len(), 40);
}

#[test]
fn the_better_solve_is_the_supported_one() {
    let s = |pose, n| PoseSolve {
        pose,
        covariance: None::<i32>,
        inliers: Vec::new(),
        inlier_count: n,
    };
    assert_eq!(better_solve(Some(s(1, 6)), s(2, 9)).pose, 1);
    assert_eq!(better_solve(Some(s(1, 5)), s(2, 9)).pose, 2);
    assert_eq!(better_solve(None, s(2, 9)).pose, 2);
}

#[test]
fn failures_are_counted_by_cause() {
    let counts = FailureCounts {
        awaiting_bootstrap: 1,
        too_few_correspondences: 2,
        ransac_failed: 3,
        too_few_inliers: 4,
    };
    assert_eq!(counts.total(), 10);
    assert_eq!(FailureCounts::default().total(), 0);

    let mut t = running();
    let first = t.failures();
    t.begin_frame();
    t.record_solve(None);
    assert_eq!(t.failures().ransac_failed, first.ransac_failed + 1);
    t.begin_frame();
    t.record_solve(solved(1, 5));
    assert_eq!(t.failures().too_few_inliers, first.too_few_inliers + 1);
    t.begin_frame();
    t.follow(&vec![None; 40]);
    t.record_solve(solved(1, 9));
    assert_eq!(
        t.failures(),
        FailureCounts {
            awaiting_bootstrap: first.awaiting_bootstrap,
            too_few_correspondences: 1,
            ransac_failed: 1,
            too_few_inliers: 1,
        }
    );
}

#[test]
fn without_a_map_a_frame_waits_for_the_bootstrap() {
    let waiting = |n: usize| FailureCounts {
        awaiting_bootstrap: n,
        ..FailureCounts::default()
    };
    let mut t = T::new(small(), false);
    step(&mut t, Scripted::blank());
    assert_eq!(t.failures(), waiting(1));
    step(
        &mut t,
        Scripted {
            corners: 40,
            ..Scripted::blank()
        },
    );
    assert_eq!(t.failures(), waiting(2));
    let flow = stay(t.features());
    step(
        &mut t,
        Scripted {
            flow: Some(flow),
            bootstrap: Some(seeds(30)),
            ..Scripted::blank()
        },
    );
    assert_eq!(t.state(), TrackingState::Tracking);
    assert_eq!(t.failures(), waiting(2), "the frame that founds a map has a pose");
    let flow = stay(t.features());
    step(
        &mut t,
        Scripted {
            flow: Some(flow),
            solve: solved(101, 30),
            ..Scripted::blank()
        },
    );
    assert_eq!(t.failures(), waiting(2));
    step(&mut t, Scripted::blank());
    assert_eq!(t.failures().ransac_failed, 1);
    t.relocalized_to(9);
    step(&mut t, Scripted::blank());
    assert_eq!(t.failures().awaiting_bootstrap, 3);
    assert_eq!(t.failures().total(), 4);
}

#[test]
fn stages_get_workable_settings() {
    let c = TrackConfig {
        pyramid_levels: 0,
        klt_window: 0,
        klt_iterations: 0,
        ..TrackConfig::default()
    };
    assert_eq!(c.pyramid_config().levels, 1);
    assert_eq!((c.flow_radius(), c.flow_iterations()), (1, 1));
    assert_eq!(c.corner_config(12).border, 8);
    assert_eq!(c.corner_config(12).max_corners, 12);
    assert_eq!(c.min_sightings(), 2);
    let c = TrackConfig {
        klt_window: 9,
        local_ba_motion_only: true,
        ..TrackConfig::default()
    };
    assert_eq!(c.corner_config(1).border, 11);
    assert_eq!(c.min_sightings(), usize::MAX);
    assert_eq!(c.pyramid_config().levels, 4);
}

#[test]
fn numbers_run_out_only_at_the_end_of_their_range() {
    let mut t: T = Tracker::new(small(), false);
    assert!(t.has_numbers_for(usize::MAX));
    step(
        &mut t,
        Scripted {
            corners: 12,
            ..Scripted::blank()
        },
    );
    assert!(!t.has_numbers_for(usize::MAX));
    assert!(t.has_numbers_for(usize::MAX - 12));
    assert!(!t.has_numbers_for(usize::MAX - 11));
}
