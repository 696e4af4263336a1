use lumiere::anim::{collect_frames, ends_in_time, playback_duration, schedule, Frame};
use lumiere::animation::{
    default_bri_scale, default_fps, default_speed, default_true, AnimTarget, Animation,
    AnimationId, Keyframe, PlaybackOptions, Single, SlotNumber, TargetModes,
};
use lumiere::fade::{interpolate, scale_brightness, scaled_ms};
use lumiere::mode::{Hue, Kelvin, Mode, Percent};

fn hsi(hue: u16, bri: u8) -> Mode {
    Mode::Hsi {
        hue: Hue::new(hue).unwrap(),
        sat: Percent::new(100).unwrap(),
        bri: Percent::new(bri).unwrap(),
    }
}

fn single(value: f32) -> Single {
    Single { bits: value.to_bits() }
}

fn lights(entries: &[(AnimTarget, Mode)]) -> TargetModes {
    let mut modes = TargetModes::new();
    for (target, mode) in entries {
        modes = modes.insert(*target, *mode);
    }
    modes
}

fn animation(keyframes: Vec<Keyframe>, looping: bool) -> Animation {
    Animation {
        id: AnimationId::parse("test").unwrap(),
        name: "Test".to_owned(),
        description: String::new(),
        loop_default: looping,
        slot_count: 0,
        keyframes,
    }
}

fn keyframe(hold_ms: u32, fade_ms: u32, mode: Mode) -> Keyframe {
    Keyframe {
        hold_ms,
        fade_ms,
        lights: lights(&[(AnimTarget::All, mode)]),
    }
}

fn times(frames: &[Frame]) -> Vec<u64> {
    frames.iter().map(|frame| frame.at_ms).collect()
}

fn hues(frames: &[Frame]) -> Vec<u16> {
    frames
        .iter()
        .map(|frame| match frame.ops[0].1 {
            Mode::Hsi { hue, .. } => hue.get(),
            _ => unreachable!(),
        })
        .collect()
}

#[test]
fn hold_only_frames_start_after_each_hold() {
    let anim = animation(
        vec![
            keyframe(100, 0, hsi(0, 100)),
            keyframe(200, 0, hsi(90, 100)),
        ],
        false,
    );
    let frames = collect_frames(&anim, &PlaybackOptions::default());
    assert_eq!(times(&frames), [0, 100]);
}

#[test]
fn fade_steps_use_expected_times_and_fractions() {
    let anim = animation(
        vec![
            keyframe(100, 0, hsi(0, 0)),
            keyframe(50, 1000, hsi(100, 100)),
        ],
        false,
    );
    let frames = collect_frames(&anim, &PlaybackOptions::default());
    assert_eq!(times(&frames), [0, 100, 300, 500, 700, 900]);
    assert_eq!(hues(&frames[1..]), [20, 40, 60, 80, 100]);
}

#[test]
fn hue_takes_shortest_path_across_zero() {
    let anim = animation(
        vec![
            keyframe(50, 0, hsi(350, 100)),
            keyframe(50, 400, hsi(10, 100)),
        ],
        false,
    );
    let frames = collect_frames(&anim, &PlaybackOptions::default());
    assert_eq!(hues(&frames[1..]), [0, 10]);
}

#[test]
fn cross_mode_snaps_only_on_last_step() {
    let anim = animation(
        vec![
            keyframe(50, 0, hsi(10, 100)),
            keyframe(
                50,
                400,
                Mode::Cct {
                    temp: Kelvin::new(5000).unwrap(),
                    bri: Percent::new(80).unwrap(),
                },
            ),
        ],
        false,
    );
    let frames = collect_frames(&anim, &PlaybackOptions::default());
    // A 400ms fade at 200ms steps is 2 steps, but only the final snap is
    // emitted for a cross-mode transition; silent steps produce no frame.
    assert_eq!(frames.len(), 2);
    assert!(matches!(frames[1].ops[0].1, Mode::Cct { .. }));
    assert_eq!(frames[1].at_ms, 50 + 200);
}

#[test]
fn loop_seam_inherits_last_fade() {
    let anim = animation(
        vec![
            keyframe(50, 0, hsi(0, 100)),
            keyframe(50, 400, hsi(100, 100)),
        ],
        true,
    );
    let opts = PlaybackOptions {
        max_loops: 2,
        ..PlaybackOptions::default()
    };
    let frames = collect_frames(&anim, &opts);
    let seam = frames.iter().position(|frame| frame.at_ms == 500).unwrap();
    assert_eq!(frames[seam].ops[0].1, hsi(50, 100));
    assert_eq!(frames[seam + 1].ops[0].1, hsi(0, 100));
}

#[test]
fn brightness_speed_and_loop_limit_apply() {
    let anim = animation(
        vec![keyframe(100, 0, hsi(0, 75)), keyframe(100, 0, hsi(20, 75))],
        true,
    );
    let opts = PlaybackOptions {
        speed: single(2.0),
        bri_scale: single(0.5),
        max_loops: 3,
        ..PlaybackOptions::default()
    };
    let frames = collect_frames(&anim, &opts);
    assert_eq!(frames.len(), 3 * 2);
    assert_eq!(times(&frames), [0, 50, 100, 150, 200, 250]);
    assert!(frames
        .iter()
        .all(|frame| matches!(frame.ops[0].1, Mode::Hsi { bri, .. } if bri.get() == 38)));
}

#[test]
fn newly_appearing_slot_snaps_on_last_step() {
    let slot = AnimTarget::Slot(SlotNumber::new(1).unwrap());
    let anim = animation(
        vec![
            keyframe(50, 0, hsi(0, 100)),
            Keyframe {
                hold_ms: 50,
                fade_ms: 400,
                lights: lights(&[(slot, hsi(90, 100))]),
            },
        ],
        false,
    );
    let frames = collect_frames(&anim, &PlaybackOptions::default());
    // A slot missing from the keyframe before fades from itself: the constant
    // target value on every step.
    assert_eq!(frames.len(), 3);
    assert_eq!(frames[1].ops, vec![(slot, hsi(90, 100))]);
    assert_eq!(frames[2].ops, vec![(slot, hsi(90, 100))]);
}

#[test]
fn unbounded_loops_have_no_duration_and_no_end() {
    let anim = animation(
        vec![
            keyframe(50, 0, hsi(0, 100)),
            keyframe(50, 400, hsi(100, 100)),
        ],
        true,
    );
    let opts = PlaybackOptions::default();
    assert!(ends_in_time(&anim, &opts));
    assert_eq!(playback_duration(&anim, &opts), None);
    let mut playback = schedule(&anim, &opts);
    let mut last = None;
    for _ in 0..1000 {
        assert!(playback.has_room());
        let frame = playback.next().unwrap();
        assert!(last.is_none_or(|at| at < frame.at_ms));
        last = Some(frame.at_ms);
    }
}

#[test]
fn a_playback_ends_at_its_duration() {
    let anim = animation(
        vec![
            keyframe(120, 0, hsi(0, 100)),
            keyframe(50, 450, hsi(100, 100)),
        ],
        true,
    );
    let opts = PlaybackOptions {
        max_loops: 3,
        ..PlaybackOptions::default()
    };
    // Holds of 100 and 50, fades of two steps of 200; the seam of two more rounds
    // takes the fade of the last keyframe.
    assert!(ends_in_time(&anim, &opts));
    assert_eq!(playback_duration(&anim, &opts), Some(3 * (100 + 50 + 400) + 2 * 400));
    let frames = collect_frames(&anim, &opts);
    assert!(frames.iter().all(|frame| frame.at_ms < 2450));
    assert!(frames.windows(2).all(|pair| pair[0].at_ms < pair[1].at_ms));
}

#[test]
fn a_finished_playback_stays_finished() {
    let anim = animation(vec![keyframe(50, 0, hsi(0, 100))], false);
    let mut playback = schedule(&anim, &PlaybackOptions::default());
    assert!(playback.next().is_some());
    assert!(playback.next().is_none());
    assert!(playback.has_room());
    assert!(playback.next().is_none());
    let empty = animation(Vec::new(), true);
    let mut playback = schedule(&empty, &PlaybackOptions::default());
    assert!(playback.next().is_none());
}

#[test]
fn an_endless_playback_that_sets_nothing_has_no_next_frame_to_wait_for() {
    let anim = animation(
        vec![Keyframe {
            hold_ms: 50,
            fade_ms: 400,
            lights: TargetModes::new(),
        }],
        true,
    );
    let mut playback = schedule(&anim, &PlaybackOptions::default());
    assert!(playback.has_room());
    assert!(playback.next().unwrap().ops.is_empty());
    assert!(!playback.has_room());
    let once = PlaybackOptions {
        loop_override: Some(false),
        ..PlaybackOptions::default()
    };
    playback = schedule(&anim, &once);
    assert!(playback.has_room());
    assert!(playback.next().unwrap().ops.is_empty());
    assert!(playback.next().is_none());
}

#[test]
fn scaled_durations_follow_double_division() {
    for bits in [0x3dcc_cccd_u32, 0x3e80_0000, 0x3f00_0000, 0x3f80_0000, 0x4000_0001, 0x4049_0fdb, 0x4120_0000] {
        let speed = f32::from_bits(bits);
        for value in [0_u32, 1, 3, 49, 50, 100, 333, 1000, 59_999, 600_000, u32::MAX] {
            assert_eq!(
                scaled_ms(value, Single { bits }),
                (f64::from(value) / f64::from(speed)) as u64,
                "{value} at {speed}"
            );
        }
    }
}

#[test]
fn scaled_brightness_follows_single_multiplication() {
    let mut scales: Vec<f32> = (0..=100).map(|percent| percent as f32 / 100.0).collect();
    scales.extend([-0.0, f32::MIN_POSITIVE, 0.0039, 0.00390625, 0.125, 0.3333, 0.99999994]);
    for scale in scales {
        for bri in 0..=100_u8 {
            let mode = scale_brightness(hsi(0, bri), single(scale));
            let expected = (f32::from(bri) * scale).round().clamp(0.0, 100.0) as u8;
            assert_eq!(mode, hsi(0, expected), "{bri} at {scale}");
        }
    }
    assert_eq!(scale_brightness(Mode::On, single(0.5)), Mode::On);
}

#[test]
fn fades_follow_double_arithmetic() {
    for steps in [1_u64, 2, 3, 7, 10, 29, 30, 45, 60, 101, 18_181] {
        for k in [1, 2, steps / 3, steps / 2, steps - steps / 5, steps] {
            let k = k.clamp(1, steps);
            let t = k as f64 / steps as f64;
            for (start, end) in [(0_u8, 45_u8), (45, 0), (100, 0), (3, 98), (50, 51), (7, 7)] {
                let mode = interpolate(hsi(0, start), hsi(0, end), k, steps).unwrap();
                let bri = (f64::from(start) + (f64::from(end) - f64::from(start)) * t).round();
                assert_eq!(mode, hsi(0, bri as u8), "{start} to {end}, {k} of {steps}");
            }
            for (start, end) in [(0_u16, 180_u16), (350, 10), (10, 350), (359, 179), (90, 271)] {
                let difference =
                    (i32::from(end) - i32::from(start) + 540).rem_euclid(360) - 180;
                let angle = (f64::from(start) + f64::from(difference) * t).round() as i32;
                let mode = interpolate(hsi(start, 0), hsi(end, 0), k, steps).unwrap();
                assert_eq!(mode, hsi(angle.rem_euclid(360) as u16, 0));
            }
        }
    }
    // In double arithmetic, seven tenths of 45 is just below 31.5.
    assert_eq!(interpolate(hsi(0, 0), hsi(0, 45), 7, 10), Some(hsi(0, 31)));
}

#[test]
fn fades_end_at_their_target_and_stay_between() {
    let cct = |temp, bri| Mode::Cct {
        temp: Kelvin::new(temp).unwrap(),
        bri: Percent::new(bri).unwrap(),
    };
    assert_eq!(interpolate(hsi(20, 3), hsi(300, 90), 9, 9), Some(hsi(300, 90)));
    assert_eq!(interpolate(cct(3250, 3), cct(5680, 90), 9, 9), Some(cct(5600, 90)));
    assert_eq!(interpolate(cct(3200, 0), cct(5600, 100), 1, 2), Some(cct(4400, 50)));
    assert_eq!(interpolate(cct(3200, 0), hsi(0, 0), 1, 2), None);
    assert_eq!(interpolate(Mode::On, Mode::On, 1, 2), None);
}

#[test]
fn full_scale_leaves_modes_alone() {
    for bri in 0..=100 {
        assert_eq!(scale_brightness(hsi(7, bri), single(1.0)), hsi(7, bri));
    }
}

#[test]
fn playback_options_have_bounds() {
    assert!(PlaybackOptions::default().validate().is_ok());
    let with_speed = |speed: f32| PlaybackOptions {
        speed: single(speed),
        ..PlaybackOptions::default()
    };
    for speed in [0.1, 0.25, 1.0, 10.0] {
        assert!(with_speed(speed).validate().is_ok());
    }
    for speed in [0.0, -1.0, 0.09999999, 10.000001, f32::NAN, f32::INFINITY, f32::NEG_INFINITY] {
        assert_eq!(
            with_speed(speed).validate().unwrap_err(),
            "speed must be between 0.1 and 10.0"
        );
    }
    for (fps, valid) in [(0, false), (1, true), (30, true), (31, false)] {
        let options = PlaybackOptions {
            fps,
            ..PlaybackOptions::default()
        };
        assert_eq!(options.validate().is_ok(), valid);
        if !valid {
            assert_eq!(options.validate().unwrap_err(), "fps must be between 1 and 30");
        }
    }
    for (scale, valid) in [
        (0.0, true),
        (-0.0, true),
        (0.5, true),
        (1.0, true),
        (1.0000001, false),
        (-0.1, false),
        (f32::NAN, false),
    ] {
        let options = PlaybackOptions {
            bri_scale: single(scale),
            ..PlaybackOptions::default()
        };
        assert_eq!(options.validate().is_ok(), valid);
        if !valid {
            assert_eq!(
                options.validate().unwrap_err(),
                "bri_scale must be between 0.0 and 1.0"
            );
        }
    }
}

#[test]
fn animations_are_validated() {
    let slot = |n| AnimTarget::Slot(SlotNumber::new(n).unwrap());
    let fault = |anim: Animation| anim.validate().unwrap_err();
    assert!(animation(vec![keyframe(1, 1, Mode::On)], false).validate().is_ok());
    assert_eq!(
        fault(animation(Vec::new(), false)),
        "animation must contain at least one keyframe"
    );
    assert_eq!(
        fault(animation(
            vec![keyframe(1, 1, Mode::On), keyframe(600_001, 700_000, Mode::On)],
            false
        )),
        "keyframe 1 hold_ms exceeds 600000"
    );
    assert_eq!(
        fault(animation(vec![keyframe(600_000, 600_001, Mode::On)], false)),
        "keyframe 0 fade_ms exceeds 600000"
    );
    let mixed = Keyframe {
        hold_ms: 1,
        fade_ms: 0,
        lights: lights(&[(slot(2), Mode::On), (AnimTarget::All, Mode::Off)]),
    };
    assert_eq!(
        fault(animation(vec![mixed], false)),
        "keyframe 0 may not mix the all target with slots"
    );
    let slots = Keyframe {
        hold_ms: 1,
        fade_ms: 0,
        lights: lights(&[(slot(12), Mode::On), (slot(3), Mode::Off)]),
    };
    assert_eq!(
        fault(animation(vec![slots], false)),
        "slot_count 0 does not match highest referenced slot 12"
    );
}

#[test]
fn targets_are_kept_in_order_and_read_back_from_their_keys() {
    let slot = |n| AnimTarget::Slot(SlotNumber::new(n).unwrap());
    let modes = lights(&[
        (slot(3), Mode::On),
        (AnimTarget::All, Mode::Off),
        (slot(1), Mode::On),
        (slot(3), Mode::Off),
    ]);
    assert_eq!(
        modes.as_slice(),
        [
            (AnimTarget::All, Mode::Off),
            (slot(1), Mode::On),
            (slot(3), Mode::Off)
        ]
    );
    assert_eq!(modes.get(slot(1)), Some(Mode::On));
    assert_eq!(modes.get(slot(2)), None);
    assert!(SlotNumber::new(0).is_none());
    for target in [AnimTarget::All, slot(1), slot(2), slot(255)] {
        assert_eq!(AnimTarget::from_key(&target.key()).unwrap(), target);
    }
    assert_eq!(AnimTarget::All.key(), "*");
    assert_eq!(slot(2).key(), "2");
    for key in ["0", "256", "", "x", "**", "-1"] {
        assert_eq!(
            AnimTarget::from_key(&key.to_owned()).unwrap_err(),
            format!("invalid animation target: {key}")
        );
    }
}

#[test]
fn target_map_keys_round_trip_as_strings() {
    let mode = Mode::Hsi {
        hue: Hue::new(20).unwrap(),
        sat: Percent::new(80).unwrap(),
        bri: Percent::new(60).unwrap(),
    };
    let all = lights(&[(AnimTarget::All, mode)]);
    let encoded: Vec<_> = all
        .as_slice()
        .iter()
        .map(|(target, mode)| (target.key(), *mode))
        .collect();
    assert_eq!(encoded, [("*".to_owned(), mode)]);
    let target = AnimTarget::from_key(&encoded[0].0).unwrap();
    assert_eq!(lights(&[(target, encoded[0].1)]).as_slice(), all.as_slice());

    let two = AnimTarget::Slot(SlotNumber::new(2).unwrap());
    let slots = lights(&[(two, Mode::On)]);
    let encoded: Vec<_> = slots
        .as_slice()
        .iter()
        .map(|(target, mode)| (target.key(), *mode))
        .collect();
    assert_eq!(encoded, [("2".to_owned(), Mode::On)]);
    let target = AnimTarget::from_key(&encoded[0].0).unwrap();
    assert_eq!(lights(&[(target, encoded[0].1)]).as_slice(), slots.as_slice());
}

#[test]
fn playback_defaults_deserialize_from_empty_object() {
    let object: serde_json::Map<String, serde_json::Value> = serde_json::from_str("{}").unwrap();
    let number = |field: &str| object.get(field).and_then(|value| value.as_f64());
    let whole = |field: &str| object.get(field).and_then(|value| value.as_u64());
    let flag = |field: &str| object.get(field).and_then(|value| value.as_bool());
    let defaults = PlaybackOptions {
        speed: number("speed").map_or_else(default_speed, |value| single(value as f32)),
        fps: whole("fps").map_or_else(default_fps, |value| value as u8),
        bri_scale: number("bri_scale").map_or_else(default_bri_scale, |value| single(value as f32)),
        loop_override: flag("loop_override"),
        max_loops: whole("max_loops").map_or(0, |value| value as u32),
        revert_on_finish: flag("revert_on_finish").unwrap_or_else(default_true),
    };
    assert_eq!(defaults, PlaybackOptions::default());
    assert_eq!((defaults.speed, defaults.bri_scale), (single(1.0), single(1.0)));
    assert_eq!((defaults.fps, defaults.revert_on_finish), (5, true));
}

#[test]
fn brightness_scale_changes_only_brightness() {
    let cct = |bri| Mode::Cct {
        temp: Kelvin::new(4200).unwrap(),
        bri: Percent::new(bri).unwrap(),
    };
    let anim = animation(
        vec![
            keyframe(100, 0, hsi(350, 80)),
            keyframe(100, 1000, hsi(10, 20)),
            keyframe(100, 400, cct(60)),
            keyframe(100, 400, Mode::On),
        ],
        false,
    );
    let full = PlaybackOptions::default();
    let bright = collect_frames(&anim, &full);
    for scale in [0.5, 0.0, -0.0] {
        let options = PlaybackOptions {
            bri_scale: single(scale),
            ..full
        };
        let dim = collect_frames(&anim, &options);
        assert_eq!(times(&bright), times(&dim));
        for (a, b) in bright.iter().zip(&dim) {
            assert_eq!(a.ops.len(), b.ops.len());
            for (x, y) in a.ops.iter().zip(&b.ops) {
                assert_eq!(x.0, y.0);
                assert_eq!(scale_brightness(x.1, single(scale)), y.1);
                match (x.1, y.1) {
                    (Mode::Hsi { hue, sat, .. }, Mode::Hsi { hue: h, sat: s, bri }) => {
                        assert_eq!((hue, sat), (h, s));
                        assert!(scale > 0.0 || bri.get() == 0);
                    }
                    (Mode::Cct { temp, .. }, Mode::Cct { temp: t, bri }) => {
                        assert_eq!(temp, t);
                        assert!(scale > 0.0 || bri.get() == 0);
                    }
                    (x, y) => assert_eq!(x, y),
                }
            }
        }
    }
}

#[test]
fn fades_take_the_shorter_way_between_their_ends() {
    let color = |hue, sat, bri| Mode::Hsi {
        hue: Hue::new(hue).unwrap(),
        sat: Percent::new(sat).unwrap(),
        bri: Percent::new(bri).unwrap(),
    };
    let distance = |a: i32, b: i32| (a - b).rem_euclid(360).min((b - a).rem_euclid(360));
    for (from, to) in [(350, 10), (10, 350), (0, 180), (90, 270), (200, 10)] {
        let (start, end) = (color(from, 20, 90), color(to, 80, 10));
        for k in 0..=7 {
            let Some(Mode::Hsi { hue, sat, bri }) = interpolate(start, end, k, 7) else {
                panic!("colors fade through colors");
            };
            assert!((20..=80).contains(&sat.get()) && (10..=90).contains(&bri.get()));
            let turned = distance(i32::from(from), i32::from(hue.get()));
            assert!(turned <= distance(i32::from(from), i32::from(to)));
        }
        assert_eq!(interpolate(start, end, 0, 7), Some(start));
        assert_eq!(interpolate(start, end, 7, 7), Some(end));
    }
    assert_eq!(
        interpolate(color(350, 0, 0), color(10, 0, 0), 1, 2),
        Some(color(0, 0, 0))
    );
    assert_eq!(interpolate(color(1, 1, 1), Mode::On, 1, 2), None);
    assert_eq!(interpolate(Mode::On, Mode::On, 1, 2), None);
}

#[test]
fn endless_playbacks_of_nothing_have_frames_where_nothing_fades() {
    let empty = |fade_ms| Keyframe {
        hold_ms: 100,
        fade_ms,
        lights: TargetModes::new(),
    };
    let anim = animation(vec![empty(0), empty(0)], true);
    let options = PlaybackOptions::default();
    let mut playback = schedule(&anim, &options);
    for n in 0..10 {
        assert!(playback.has_room());
        let frame = playback.next().unwrap();
        assert_eq!((frame.at_ms, frame.ops.len()), (n * 100, 0));
    }
    // Where everything fades there is only the first frame, and none comes after it.
    let anim = animation(vec![empty(400), empty(400)], true);
    let mut playback = schedule(&anim, &options);
    assert!(playback.has_room());
    assert_eq!(playback.next().unwrap().at_ms, 0);
    assert!(!playback.has_room());
    // One keyframe that does not fade is enough.
    let anim = animation(vec![empty(400), empty(0), empty(400)], true);
    let mut playback = schedule(&anim, &options);
    let mut times = Vec::new();
    for _ in 0..4 {
        assert!(playback.has_room());
        times.push(playback.next().unwrap().at_ms);
    }
    assert_eq!(times, [0, 100, 1200, 2300]);
}
