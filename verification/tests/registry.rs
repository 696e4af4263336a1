use lumiere::animation::{
    AnimTarget, Animation, AnimationId, Keyframe, PlaybackOptions, SlotNumber, TargetBinding,
    TargetModes,
};
use lumiere::api;
use lumiere::id::LightId;
use lumiere::idmap::IdMap;
use lumiere::mode::{Hue, Mode, Percent};
use lumiere::models::{ModelTable, RawCaps, RawModel, RawTable};
use lumiere::order::{check_file, shelve};
use lumiere::player::{frame_updates, Player, Step};
use lumiere::preset::{Preset, PresetEntry, PresetId, PresetTarget};
use lumiere::registry::{
    decode_cancel_reason, encode_cancel_reason, PlaybackFinishReason, Registry,
};
use lumiere::selector::Selector;
use lumiere::state::{ConnState, Event, PerLightResult, ServerMsg, SkipReason, WorldSnapshot};
use lumiere::transport::Discovered;
use lumiere::world::apply_server_message;

fn table() -> ModelTable {
    let model = |pattern: &str, cct_min, cct_max, rgb, split| RawModel {
        patterns: vec![pattern.to_owned()],
        cct_min: Some(cct_min),
        cct_max: Some(cct_max),
        rgb: Some(rgb),
        scenes: Some(rgb),
        cct_split_packets: Some(split),
        reports_status: None,
    };
    ModelTable::from_raw(&RawTable {
        defaults: RawCaps {
            cct_min: 3200,
            cct_max: 5600,
            rgb: true,
            scenes: true,
            cct_split_packets: false,
            reports_status: true,
        },
        models: vec![
            model("RGB660", 3200, 5600, true, false),
            model("SNL660", 3200, 5600, false, true),
        ],
    })
    .unwrap()
}

fn found(name: &str, advertised: &str) -> Discovered {
    Discovered {
        id: LightId::sim(name),
        name: Some(advertised.to_owned()),
        rssi: Some(-40),
    }
}

fn registry(names: &[&str]) -> Registry {
    registry_with(names, Vec::new(), Vec::new())
}

fn registry_with(names: &[&str], animations: Vec<Animation>, presets: Vec<Preset>) -> Registry {
    let mut shelf = Vec::new();
    for animation in animations {
        assert!(shelve(&mut shelf, animation));
    }
    let mut registry = Registry::new(IdMap::new(), shelf, presets);
    for name in names {
        assert!(registry.has_room());
        registry.discovered(found(name, "NEEWER-RGB660 PRO"), &table());
        registry.connection(&LightId::sim(name), ConnState::Connected, None);
    }
    registry
}

fn hsi(hue: u16) -> Mode {
    Mode::Hsi {
        hue: Hue::new(hue).unwrap(),
        sat: Percent::new(100).unwrap(),
        bri: Percent::new(100).unwrap(),
    }
}

fn ids(names: &[&str]) -> Selector {
    Selector::Ids {
        ids: names.iter().map(|name| LightId::sim(name)).collect(),
    }
}

fn slot(n: u8) -> AnimTarget {
    AnimTarget::Slot(SlotNumber::new(n).unwrap())
}

fn animation(id: &str, entries: &[(AnimTarget, Mode)], slot_count: u8) -> Animation {
    let mut lights = TargetModes::new();
    for (target, mode) in entries {
        lights = lights.insert(*target, *mode);
    }
    Animation {
        id: AnimationId::parse(id).unwrap(),
        name: "Test Animation".to_owned(),
        description: "Fixture".to_owned(),
        loop_default: false,
        slot_count,
        keyframes: vec![Keyframe {
            hold_ms: 50,
            fade_ms: 0,
            lights,
        }],
    }
}

fn play(registry: &mut Registry, id: &str) -> Result<lumiere::playback::Started, String> {
    registry.play(
        &AnimationId::parse(id).unwrap(),
        &PlaybackOptions::default(),
        &TargetBinding::default(),
        7,
    )
}

#[test]
fn discovers_lights_with_the_capabilities_of_their_model() {
    let mut labels = IdMap::new();
    labels.insert(LightId::sim("b"), "Fill".to_owned());
    let mut registry = Registry::new(labels, Vec::new(), Vec::new());
    assert_eq!(registry.discovered(found("a", "NEEWER-RGB660 PRO"), &table()), Some(0));
    assert_eq!(registry.discovered(found("b", "NEEWER-SNL660"), &table()), Some(1));
    let nameless = Discovered {
        id: LightId::sim("c"),
        name: None,
        rssi: None,
    };
    assert_eq!(registry.discovered(nameless, &table()), Some(2));
    let world = registry.world();
    assert_eq!(world.seq, 3);
    assert!(world.lights[0].caps.rgb);
    assert!(!world.lights[1].caps.rgb && world.lights[1].caps.cct_split_packets);
    assert_eq!(world.lights[0].label, "NEEWER-RGB660 PRO");
    assert_eq!(world.lights[1].label, "Fill");
    assert_eq!(world.lights[2].model, "sim:c");
    assert!(world.lights.iter().all(|light| light.conn == ConnState::Discovered));
    // A known light is only published when its signal strength differs.
    assert_eq!(registry.discovered(found("a", "NEEWER-OTHER"), &table()), None);
    assert_eq!(registry.world().seq, 3);
    let mut moved = found("a", "NEEWER-OTHER");
    moved.rssi = Some(-50);
    assert_eq!(registry.discovered(moved, &table()), None);
    let world = registry.world();
    assert_eq!((world.seq, world.lights[0].rssi), (4, Some(-50)));
    assert_eq!(world.lights[0].model, "NEEWER-RGB660 PRO");
}

#[test]
fn connections_keep_errors_until_they_are_made() {
    let mut registry = registry(&["a"]);
    let id = LightId::sim("a");
    registry.connection(&id, ConnState::Reconnecting { attempt: 1 }, Some("gone".into()));
    registry.connection(&id, ConnState::Reconnecting { attempt: 2 }, None);
    assert_eq!(registry.world().lights[0].last_error.as_deref(), Some("gone"));
    registry.connection(&id, ConnState::Connected, None);
    assert_eq!(registry.world().lights[0].last_error, None);
    let before = registry.world();
    registry.connection(&LightId::sim("zz"), ConnState::Lost, None);
    assert_eq!(before, registry.world());
}

#[test]
fn outcomes_are_noted() {
    let mut registry = registry(&["a"]);
    let id = || LightId::sim("a");
    registry.apply_result(&PerLightResult::Skipped {
        id: id(),
        reason: SkipReason::UnsupportedMode,
    });
    assert_eq!(registry.world().lights[0].last_error.as_deref(), Some("unsupported mode"));
    registry.apply_result(&PerLightResult::Skipped {
        id: id(),
        reason: SkipReason::NotConnected,
    });
    assert_eq!(registry.world().lights[0].last_error.as_deref(), Some("not connected"));
    registry.apply_result(&PerLightResult::Failed {
        id: id(),
        error: "boom".into(),
    });
    assert_eq!(registry.world().lights[0].last_error.as_deref(), Some("boom"));
    registry.apply_result(&PerLightResult::Applied {
        id: id(),
        mode: Mode::Off,
    });
    let light = &registry.world().lights[0];
    assert_eq!((light.confirmed, light.power), (Some(Mode::Off), Some(false)));
    assert_eq!(light.last_error, None);
    registry.apply_result(&PerLightResult::Adapted {
        id: id(),
        requested: Mode::On,
        applied: hsi(1),
    });
    let light = &registry.world().lights[0];
    assert_eq!((light.confirmed, light.power), (Some(hsi(1)), Some(false)));
    let seq = registry.world().seq;
    registry.apply_result(&PerLightResult::Coalesced { id: id() });
    assert_eq!(registry.world().seq, seq + 1);
    registry.apply_result(&PerLightResult::Coalesced {
        id: LightId::sim("zz"),
    });
    assert_eq!(registry.world().seq, seq + 1);
}

#[test]
fn labels_are_set_for_known_lights() {
    let mut registry = registry(&["a"]);
    let light = registry.set_label(LightId::sim("a"), "Key".into()).unwrap();
    assert_eq!(light.label, "Key");
    assert_eq!(registry.world().lights[0].label, "Key");
    assert_eq!(
        registry.set_label(LightId::sim("b"), "Key".into()).unwrap_err(),
        "light sim:b was not found"
    );
}

#[test]
fn events_replay_to_the_same_world_and_are_strictly_sequenced() {
    let mut registry = registry(&["a", "b"]);
    let mut client = registry.world();
    let seen = client.seq;
    registry.set_label(LightId::sim("b"), "Fill".into()).unwrap();
    registry.set_mode(&Selector::All, hsi(3));
    registry.discovered(found("c", "NEEWER-SNL660"), &table());
    let replay = registry.events_since(seen).unwrap();
    assert_eq!(replay[0].seq, seen + 1);
    assert_eq!(replay.last().unwrap().seq, registry.world().seq);
    assert!(replay.windows(2).all(|pair| pair[0].seq + 1 == pair[1].seq));
    apply_server_message(&mut client, &ServerMsg::Patch { events: replay });
    assert_eq!(client, registry.world());
}

#[test]
fn only_the_latest_events_are_kept() {
    let mut registry = registry(&["a"]);
    assert_eq!(registry.events_since(0).unwrap().len(), 2);
    assert!(registry.events_since(2).unwrap().is_empty());
    assert!(registry.events_since(u64::MAX).unwrap().is_empty());
    for n in 0..300 {
        registry.set_label(LightId::sim("a"), format!("{n}")).unwrap();
    }
    assert_eq!(registry.world().seq, 302);
    assert_eq!(registry.recent_events().len(), 256);
    assert!(registry.events_since(45).is_none());
    assert_eq!(registry.events_since(46).unwrap().len(), 256);
    assert_eq!(registry.events_since(301).unwrap().len(), 1);
}

#[test]
fn modes_are_announced_for_selected_lights() {
    let mut registry = registry(&["a", "b", "c"]);
    let seq = registry.world().seq;
    let (targets, cancelled) = registry.set_mode(&ids(&["c", "a", "zz"]), hsi(5));
    assert_eq!(targets, [(0, hsi(5)), (2, hsi(5))]);
    assert_eq!(cancelled, None);
    let world = registry.world();
    assert_eq!(world.seq, seq + 2);
    let desired: Vec<_> = world.lights.iter().map(|light| light.desired).collect();
    assert_eq!(desired, [Some(hsi(5)), None, Some(hsi(5))]);
}

#[test]
fn manual_modes_preempt_a_playback_once_and_win() {
    let all = animation("all", &[(AnimTarget::All, hsi(0))], 0);
    let mut registry = registry_with(&["a", "b"], vec![all], Vec::new());
    let started = play(&mut registry, "all").unwrap();
    assert!(registry.active_leases(&LightId::sim("a")));
    let seen = registry.world().seq;
    let (_, cancelled) = registry.set_mode(&ids(&["a"]), hsi(300));
    assert_eq!(cancelled, Some(started.playback_id));
    assert!(registry.world().playback.is_none());
    let events = registry.events_since(seen).unwrap();
    assert!(matches!(events[0].event, Event::Playback { playback: None }));
    assert_eq!(events.len(), 2);
    assert_eq!(registry.world().lights[0].desired, Some(hsi(300)));
    assert_eq!(registry.cancel_active(), None);
}

#[test]
fn playback_is_shown_until_it_is_over() {
    let all = animation("all", &[(AnimTarget::All, hsi(0))], 0);
    let mut registry = registry_with(&["a"], vec![all], Vec::new());
    let first = play(&mut registry, "all").unwrap();
    assert_eq!(first.playback_id, 1);
    let status = registry.world().playback.unwrap();
    assert_eq!(status.animation.as_str(), "all");
    assert_eq!((status.started_ms, status.looping), (7, false));
    let second = play(&mut registry, "all").unwrap();
    assert_eq!(second.replaced, Some(first.playback_id));
    // The one that was replaced is none of the registry's business any more.
    registry.playback_finished(first.playback_id, PlaybackFinishReason::Natural);
    assert!(registry.world().playback.is_some());
    registry.playback_finished(second.playback_id, PlaybackFinishReason::Chained);
    assert!(registry.world().playback.is_some());
    registry.playback_finished(second.playback_id, PlaybackFinishReason::Natural);
    assert!(registry.world().playback.is_none());
    let third = play(&mut registry, "all").unwrap();
    assert_eq!(third.replaced, None);
    assert_eq!(registry.cancel_active(), Some(third.playback_id));
}

#[test]
fn slot_bindings_are_specific_and_fallback_wraps_round_robin() {
    let entries = [(slot(1), hsi(10)), (slot(2), hsi(20)), (slot(5), hsi(50))];
    let anim = animation("slots", &entries, 5);
    let registry = registry(&["one", "two", "three"]);
    let binding = TargetBinding {
        all: Selector::All,
        slots: vec![LightId::sim("two"), LightId::sim("three")],
    };
    let targets = registry.resolve_animation_targets(&anim, &binding).unwrap();
    assert_eq!(
        targets,
        [(slot(1), vec![1]), (slot(2), vec![2]), (slot(5), vec![1])]
    );
}

#[test]
fn playback_is_refused_for_a_reason() {
    let entries = [(slot(2), hsi(20))];
    let anims = || {
        vec![
            animation("all", &[(AnimTarget::All, hsi(0))], 0),
            animation("empty", &[], 0),
            animation("slots", &entries, 2),
        ]
    };
    let mut registry = registry_with(&["a"], anims(), Vec::new());
    let before = registry.world();
    let mut options = PlaybackOptions::default();
    options.fps = 0;
    let all = AnimationId::parse("all").unwrap();
    let error = registry.play(&all, &options, &TargetBinding::default(), 0).unwrap_err();
    assert_eq!(error, "fps must be between 1 and 30");
    assert_eq!(play(&mut registry, "none").unwrap_err(), "animation none was not found");
    assert_eq!(
        play(&mut registry, "empty").unwrap_err(),
        "animation has no resolvable light targets"
    );
    let binding = TargetBinding {
        all: Selector::All,
        slots: vec![LightId::sim("a"), LightId::sim("b")],
    };
    let slots = AnimationId::parse("slots").unwrap();
    let options = PlaybackOptions::default();
    assert_eq!(
        registry.play(&slots, &options, &binding, 0).unwrap_err(),
        "slot 2 light sim:b is not connected"
    );
    assert_eq!(before, registry.world());
    let mut registry = registry_with(&[], anims(), Vec::new());
    assert_eq!(
        play(&mut registry, "all").unwrap_err(),
        "target All resolved to no connected lights"
    );
    assert_eq!(
        play(&mut registry, "slots").unwrap_err(),
        "slot 2 cannot resolve because no lights are connected"
    );
}

#[test]
fn a_player_sends_frames_and_reverts() {
    let all = animation("all", &[(AnimTarget::All, hsi(0))], 0);
    let mut registry = registry_with(&["a", "b", "c"], vec![all], Vec::new());
    registry.connection(&LightId::sim("c"), ConnState::Lost, None);
    registry.apply_result(&PerLightResult::Applied {
        id: LightId::sim("a"),
        mode: hsi(200),
    });
    let started = play(&mut registry, "all").unwrap();
    assert_eq!(started.targets, [(AnimTarget::All, vec![0, 1])]);
    assert_eq!(started.reverts, [(0, hsi(200))]);
    let anim = animation("all", &[(AnimTarget::All, hsi(0))], 0);
    let mut player = Player::start(&anim, &PlaybackOptions::default());
    assert!(player.is_ready());
    let Step::Frame(frame) = player.step() else {
        panic!("a frame comes first");
    };
    assert_eq!(frame.at_ms, 0);
    assert_eq!(
        frame_updates(&started.targets, &frame.ops),
        [(0, hsi(0)), (1, hsi(0))]
    );
    assert!(frame_updates(&started.targets, &vec![(slot(1), Mode::On)]).is_empty());
    assert!(matches!(player.step(), Step::End { at_ms: 50 }));
    assert!(matches!(player.step(), Step::Over));
    assert_eq!(player.finish(None), (PlaybackFinishReason::Natural, true));
    assert_eq!(player.finish(Some(2)), (PlaybackFinishReason::Chained, false));
    assert_eq!(player.finish(Some(1)), (PlaybackFinishReason::Cancelled, true));
    let keep = PlaybackOptions {
        revert_on_finish: false,
        ..PlaybackOptions::default()
    };
    assert!(!Player::start(&anim, &keep).finish(None).1);
}

#[test]
fn cancel_reasons_survive_their_numbers() {
    for reason in [PlaybackFinishReason::Cancelled, PlaybackFinishReason::Chained] {
        assert_eq!(decode_cancel_reason(encode_cancel_reason(reason)), reason);
    }
    assert_eq!(encode_cancel_reason(PlaybackFinishReason::Natural), 0);
    assert_eq!(decode_cancel_reason(0), PlaybackFinishReason::Cancelled);
}

#[test]
fn connecting_a_leased_light_ends_the_playback() {
    let all = animation("all", &[(AnimTarget::All, hsi(0))], 0);
    let mut registry = registry_with(&["a"], vec![all], Vec::new());
    assert_eq!(registry.begin_connect(&LightId::sim("a")), (None, Ok(0)));
    let started = play(&mut registry, "all").unwrap();
    let (cancelled, light) = registry.begin_connect(&LightId::sim("a"));
    assert_eq!((cancelled, light), (Some(started.playback_id), Ok(0)));
    let (_, missing) = registry.begin_connect(&LightId::sim("b"));
    assert_eq!(missing.unwrap_err(), "light sim:b was not found");
    assert_eq!(registry.find(&LightId::sim("b")).unwrap_err(), "light sim:b was not found");
}

#[test]
fn presets_are_captured_recalled_renamed_and_deleted() {
    let mut registry = registry(&["one", "two", "three"]);
    let empty = registry.save_preset("  ", &Selector::All).unwrap_err();
    assert_eq!(empty, "preset name may not be empty");
    let nothing = registry.save_preset("Look", &Selector::All).unwrap_err();
    assert_eq!(nothing, "no connected light modes could be captured");
    registry.set_mode(&ids(&["one", "three"]), hsi(42));
    registry.apply_result(&PerLightResult::Applied {
        id: LightId::sim("three"),
        mode: hsi(43),
    });
    let preset = registry.save_preset(" My Look ", &Selector::All).unwrap();
    assert_eq!((preset.id.as_str(), preset.name.as_str()), ("my-look", "My Look"));
    assert_eq!(preset.entries.len(), 2);
    assert_eq!(registry.recall_preset(&preset.id).unwrap(), [(0, hsi(42)), (2, hsi(43))]);
    let second = registry.save_preset("my look", &ids(&["one"])).unwrap();
    assert_eq!(second.id.as_str(), "my-look-2");
    let third = registry.save_preset("MY-LOOK", &ids(&["one"])).unwrap();
    assert_eq!(third.id.as_str(), "my-look-3");
    registry.rename_preset(&preset.id, " Renamed ").unwrap();
    assert_eq!(registry.list_presets()[0].name, "Renamed");
    assert_eq!(
        registry.rename_preset(&preset.id, "").unwrap_err(),
        "preset name may not be empty"
    );
    registry.set_mode(&ids(&["two"]), hsi(7));
    let again = registry.recapture_preset(&preset.id, &ids(&["two"])).unwrap();
    assert_eq!((again.id.as_str(), again.name.as_str()), ("my-look", "Renamed"));
    assert_eq!(registry.recall_preset(&preset.id).unwrap(), [(1, hsi(7))]);
    registry.delete_preset(&preset.id).unwrap();
    assert_eq!(registry.list_presets().len(), 2);
    let gone = "preset my-look was not found";
    assert_eq!(registry.delete_preset(&preset.id).unwrap_err(), gone);
    assert_eq!(registry.recall_preset(&preset.id).unwrap_err(), gone);
    assert_eq!(registry.rename_preset(&preset.id, "x").unwrap_err(), gone);
    assert_eq!(registry.recapture_preset(&preset.id, &Selector::All).unwrap_err(), gone);
}

#[test]
fn later_preset_entries_override_earlier_ones() {
    let preset = Preset {
        id: PresetId::parse("daylight").unwrap(),
        name: "Daylight".into(),
        entries: vec![
            PresetEntry {
                target: PresetTarget::Everything,
                mode: hsi(1),
            },
            PresetEntry {
                target: PresetTarget::Light {
                    id: LightId::sim("b"),
                },
                mode: hsi(2),
            },
            PresetEntry {
                target: PresetTarget::Light {
                    id: LightId::sim("zz"),
                },
                mode: hsi(3),
            },
        ],
    };
    let id = preset.id.clone();
    let mut registry = registry_with(&["a", "b", "c"], Vec::new(), vec![preset]);
    registry.connection(&LightId::sim("b"), ConnState::Lost, None);
    registry.connection(&LightId::sim("c"), ConnState::Lost, None);
    assert_eq!(registry.recall_preset(&id).unwrap(), [(0, hsi(1)), (1, hsi(2))]);
}

#[test]
fn animations_are_listed_in_identifier_order() {
    let anims = vec![
        animation("rain", &[], 0),
        animation("a-b", &[], 0),
        animation("a", &[], 0),
        animation("warm", &[], 0),
    ];
    let registry = registry_with(&[], anims, Vec::new());
    let listed: Vec<_> = registry
        .list_animations()
        .iter()
        .map(|item| item.id.as_str().to_owned())
        .collect();
    assert_eq!(listed, ["a", "a-b", "rain", "warm"]);
    let mut shelf = vec![animation("a", &[], 0)];
    assert!(!shelve(&mut shelf, animation("a", &[(AnimTarget::All, Mode::On)], 0)));
    assert_eq!(shelf[0].keyframes[0].lights.as_slice().len(), 0);
}

#[test]
fn animation_files_are_named_after_their_animation() {
    let anim = animation("rain", &[], 0);
    assert!(check_file("rain", &anim).is_ok());
    assert_eq!(
        check_file("rain \"2\"", &anim).unwrap_err(),
        "filename id \"rain \\\"2\\\"\" does not match animation id rain"
    );
    let mut broken = animation("rain", &[], 0);
    broken.slot_count = 1;
    assert_eq!(
        check_file("other", &broken).unwrap_err(),
        "slot_count 1 does not match highest referenced slot 0"
    );
}

#[test]
fn requests_fail_with_a_status() {
    let all = animation("all", &[(AnimTarget::All, hsi(0))], 0);
    let mut registry = registry_with(&["a"], vec![all], Vec::new());
    let preset = {
        registry.set_mode(&Selector::All, hsi(1));
        registry.save_preset("Look", &Selector::All).unwrap()
    };
    assert_eq!(api::parse_id("sim:1").unwrap(), LightId::sim("1"));
    let error = api::parse_id("1").unwrap_err();
    assert_eq!((error.status, error.message.as_str()), (400, "invalid namespaced light identifier: 1"));
    assert_eq!(api::parse_animation_id("A").unwrap_err().status, 400);
    assert_eq!(api::parse_preset_id("A").unwrap_err().message, "invalid preset id: A");
    let options = PlaybackOptions::default();
    let binding = TargetBinding::default();
    let missing = api::parse_animation_id("none").unwrap();
    let error = api::play_animation(&mut registry, &missing, &options, &binding, 0).unwrap_err();
    assert_eq!((error.status, error.message.as_str()), (404, "animation none was not found"));
    let id = api::parse_animation_id("all").unwrap();
    let mut wrong = options;
    wrong.fps = 99;
    let error = api::play_animation(&mut registry, &id, &wrong, &binding, 0).unwrap_err();
    assert_eq!(error.status, 409);
    assert!(api::play_animation(&mut registry, &id, &options, &binding, 0).is_ok());
    let renamed = api::rename_preset(&mut registry, &preset.id, "Portrait").unwrap();
    assert_eq!((renamed.id.as_str(), renamed.name.as_str()), ("look", "Portrait"));
    assert_eq!(api::rename_preset(&mut registry, &preset.id, " ").unwrap_err().status, 409);
    let nobody = PresetId::parse("nobody").unwrap();
    assert_eq!(api::rename_preset(&mut registry, &nobody, "x").unwrap_err().status, 404);
    assert_eq!(api::require_preset(&registry, &preset.id).unwrap(), 0);
    assert!(api::recapture_preset(&mut registry, &preset.id, &None).is_ok());
    let none = Some(ids(&["zz"]));
    let error = api::recapture_preset(&mut registry, &preset.id, &none).unwrap_err();
    assert_eq!(error.status, 503);
    assert_eq!(api::ApiError::gateway("x".into()).status, 502);
}
