use lumiere::animation::{AnimationId, AnimationSummary, Single};
use lumiere::caps::Capabilities;
use lumiere::client::{
    authorization, check_response, should_clear, starting_token, status_summary, ConnStatus,
    Connection, Received, RequestError,
};
use lumiere::controls::{
    cct_mode, envelope, hsi_mode, known_from_mode, light_command, Drawer, Panel, Slider, Tab,
};
use lumiere::format::{
    connection_summary, light_summary, mode_summary, rssi_text, with_suffix,
};
use lumiere::id::LightId;
use lumiere::mode::{Hue, Kelvin, Mode, Percent, SceneId};
use lumiere::panels::{
    chosen_animation, entered_name, entered_number, filtered_animations, play_options,
    preset_slug_display, target_label, PresetEditor, Selection,
};
use lumiere::platform::{
    clear_stored_token, current_origin, jitter_ms, parse_fragment, reconnect_jitter_ms,
    store_token, stored_token, strip_url_fragment, token_from_url_fragment, ws_url,
};
use lumiere::preset::{PresetId, PresetTarget};
use lumiere::selector::Selector;
use lumiere::state::{
    ClientMsg, ConnState, Event, LightSnapshot, ResyncReason, SeqEvent, ServerMsg, WorldSnapshot,
    WS_PROTOCOL_VERSION,
};
use lumiere::world::{apply_server_message, reconnect_backoff_ms, reconnect_wait_ms};

fn light(name: &str, label: &str) -> LightSnapshot {
    LightSnapshot {
        id: LightId::sim(name),
        model: "RGB660".into(),
        label: label.into(),
        caps: Capabilities {
            cct_min: Kelvin::new(2500).unwrap(),
            cct_max: Kelvin::new(10_000).unwrap(),
            rgb: true,
            scenes: true,
            cct_split_packets: false,
            reports_status: true,
        },
        conn: ConnState::Connected,
        rssi: Some(-42),
        desired: None,
        confirmed: None,
        power: Some(true),
        last_error: None,
    }
}

fn cct(temp: u16, bri: u8) -> Mode {
    Mode::Cct {
        temp: Kelvin::new(temp).unwrap(),
        bri: Percent::new(bri).unwrap(),
    }
}

fn hsi(hue: u16, sat: u8, bri: u8) -> Mode {
    Mode::Hsi {
        hue: Hue::new(hue).unwrap(),
        sat: Percent::new(sat).unwrap(),
        bri: Percent::new(bri).unwrap(),
    }
}

#[test]
fn parses_token_fragment() {
    assert_eq!(parse_fragment("#t=secret"), Some("secret".into()));
    assert_eq!(parse_fragment("#t=  secret  "), Some("secret".into()));
    assert_eq!(parse_fragment("#t="), None);
    assert_eq!(parse_fragment("#other=secret"), None);
    assert_eq!(parse_fragment(""), None);
}

#[test]
fn converts_origins_to_websocket_urls() {
    assert_eq!(
        ws_url("https://lights.example", "/api/v1/events"),
        "wss://lights.example/api/v1/events"
    );
    assert_eq!(
        ws_url("http://localhost:8080/", "api/v1/events"),
        "ws://localhost:8080/api/v1/events"
    );
}

#[test]
fn other_origins_keep_their_scheme() {
    assert_eq!(ws_url("", "//events"), "/events");
    assert_eq!(ws_url("wss://a//", ""), "wss://a/");
}

#[test]
fn there_is_no_browser_here() {
    store_token("secret");
    strip_url_fragment();
    assert_eq!(stored_token(), None);
    clear_stored_token();
    assert_eq!(token_from_url_fragment(), None);
    assert_eq!(current_origin(), "");
}

#[test]
fn jitter_stays_below_its_maximum() {
    assert_eq!(reconnect_jitter_ms(1, 0), 0);
    assert_eq!(reconnect_jitter_ms(1, 63), 1_103_527_590 % 63);
    assert_eq!(jitter_ms(Some(1000), 1, 63), 1000 % 63);
    for attempt in 0..200 {
        assert!(reconnect_jitter_ms(attempt, 126) < 126);
    }
}

#[test]
fn folds_welcome_patch_and_resync() {
    let mut world = WorldSnapshot {
        seq: 0,
        lights: Vec::new(),
        playback: None,
    };
    apply_server_message(
        &mut world,
        &ServerMsg::Welcome {
            protocol_version: WS_PROTOCOL_VERSION,
            server_version: "test".into(),
            session: "one".into(),
            seq: 1,
            snapshot: Some(WorldSnapshot {
                seq: 1,
                lights: vec![light("key", "Key")],
                playback: None,
            }),
        },
    );
    assert_eq!(world.lights[0].label, "Key");

    apply_server_message(
        &mut world,
        &ServerMsg::Patch {
            events: vec![
                SeqEvent {
                    seq: 2,
                    event: Event::Light {
                        light: light("key", "Key light"),
                    },
                },
                SeqEvent {
                    seq: 3,
                    event: Event::Light {
                        light: light("fill", "Fill"),
                    },
                },
                SeqEvent {
                    seq: 4,
                    event: Event::LightRemoved {
                        id: LightId::sim("key"),
                    },
                },
            ],
        },
    );
    assert_eq!(world.seq, 4);
    assert_eq!(world.lights, vec![light("fill", "Fill")]);

    let replacement = WorldSnapshot {
        seq: 9,
        lights: vec![light("rim", "Rim")],
        playback: None,
    };
    apply_server_message(
        &mut world,
        &ServerMsg::Resync {
            snapshot: replacement.clone(),
            reason: ResyncReason::SessionChanged,
        },
    );
    assert_eq!(world, replacement);
}

#[test]
fn reconnect_delays_are_exponential_and_capped() {
    assert_eq!(
        (1..=8).map(reconnect_backoff_ms).collect::<Vec<_>>(),
        vec![250, 500, 1_000, 2_000, 4_000, 8_000, 10_000, 10_000]
    );
}

#[test]
fn reconnect_waits_are_capped_with_their_jitter() {
    assert_eq!(reconnect_backoff_ms(0), 250);
    assert_eq!(reconnect_backoff_ms(u32::MAX), 10_000);
    assert_eq!(reconnect_wait_ms(2, 30), 530);
    assert_eq!(reconnect_wait_ms(6, 2_001), 10_000);
    assert_eq!(reconnect_wait_ms(9, u32::MAX), 10_000);
}

#[test]
fn formats_each_mode_compactly() {
    assert_eq!(mode_summary(Mode::Off), "Power off");
    assert_eq!(mode_summary(Mode::On), "Power on");
    assert_eq!(
        mode_summary(Mode::Cct {
            temp: Kelvin::new(5_600).unwrap(),
            bri: Percent::new(75).unwrap(),
        }),
        "5600 K · 75%"
    );
    assert_eq!(
        mode_summary(Mode::Hsi {
            hue: Hue::new(240).unwrap(),
            sat: Percent::new(90).unwrap(),
            bri: Percent::new(60).unwrap(),
        }),
        "240° · S 90% · B 60%"
    );
    assert_eq!(
        mode_summary(Mode::Scene {
            scene: SceneId::new(3).unwrap(),
            bri: Percent::new(40).unwrap(),
        }),
        "Scene 3 · 40%"
    );
}

#[test]
fn lights_and_connections_are_described() {
    let mut one = light("one", "One");
    assert_eq!(light_summary(&one), ("On".to_owned(), false));
    one.power = Some(false);
    assert_eq!(light_summary(&one), ("Off".to_owned(), false));
    one.power = None;
    assert_eq!(light_summary(&one), ("Unknown".to_owned(), false));
    one.desired = Some(Mode::On);
    assert_eq!(light_summary(&one), ("Power on".to_owned(), true));
    one.confirmed = Some(Mode::Off);
    assert_eq!(light_summary(&one), ("Power off".to_owned(), false));
    assert_eq!(
        connection_summary(&ConnState::Reconnecting { attempt: 12 }),
        ("reconnecting", "Reconnecting 12".to_owned())
    );
    assert_eq!(
        connection_summary(&ConnState::Connecting { attempt: 1 }),
        ("reconnecting", "Connecting 1".to_owned())
    );
    assert_eq!(connection_summary(&ConnState::Lost), ("lost", "Lost".to_owned()));
    assert_eq!(rssi_text(Some(-42)), "-42 dBm");
    assert_eq!(rssi_text(None), "-");
    assert_eq!(with_suffix(-7, "%"), "-7%");
    assert_eq!(
        status_summary(ConnStatus::Reconnecting { attempt: 3 }),
        ("reconnecting", "Reconnecting (3)".to_owned())
    );
    assert_eq!(status_summary(ConnStatus::Live).0, "live");
}

#[test]
fn known_fields_follow_the_mode() {
    let cct = known_from_mode(Some(Mode::Cct {
        temp: Kelvin::new(4200).unwrap(),
        bri: Percent::new(20).unwrap(),
    }));
    assert_eq!(cct.cct_temp, Some(4200));
    assert_eq!(cct.cct_bri, Some(20));
    assert_eq!(cct.hsi_hue, None);

    let none = known_from_mode(Some(Mode::On));
    assert_eq!(none.cct_temp, None);
}

#[test]
fn untouched_sliders_follow_the_light() {
    let mut one = light("one", "One");
    one.confirmed = Some(hsi(20, 30, 40));
    let mut drawer = Drawer::open(&one);
    assert_eq!(drawer.tab, Tab::Hsi);
    assert_eq!(drawer.pane(false), Tab::Cct);
    let shown = drawer.shown(&one);
    assert_eq!((shown.hsi_hue, shown.hsi_sat, shown.hsi_bri), (20, 30, 40));
    assert_eq!((shown.cct_temp, shown.cct_bri), (5600, 100));
    assert_eq!(drawer.slide(Slider::HsiSat, 90, &one), hsi(20, 90, 40));
    one.confirmed = Some(hsi(200, 1, 2));
    let shown = drawer.shown(&one);
    assert_eq!((shown.hsi_hue, shown.hsi_sat, shown.hsi_bri), (200, 90, 2));
    one.caps.cct_max = Kelvin::new(5000).unwrap();
    assert_eq!(drawer.slide(Slider::CctBri, 10, &one), cct(5000, 10));
    assert_eq!(drawer.slide(Slider::CctTemp, 9000, &one), cct(5000, 10));
    assert_eq!(drawer.slide(Slider::HsiHue, -10, &one), hsi(350, 90, 2));
    assert_eq!(drawer.slide(Slider::HsiBri, 300, &one), hsi(350, 90, 100));
    assert_eq!(cct_mode(0, -5), cct(2500, 0));
    assert_eq!(hsi_mode(725, 101, 50), hsi(5, 100, 50));
}

#[test]
fn the_panel_covers_what_selected_lights_have_in_common() {
    let mut a = light("a", "A");
    let mut b = light("b", "B");
    a.caps.rgb = false;
    a.caps.cct_min = Kelvin::new(3200).unwrap();
    b.caps.rgb = false;
    b.caps.cct_max = Kelvin::new(5600).unwrap();
    let c = light("c", "C");
    let lights = vec![a, b, c];
    let both = vec![LightId::sim("a"), LightId::sim("b")];
    let common = envelope(&lights, &both);
    assert_eq!((common.any_rgb, common.cct_min, common.cct_max), (false, 3200, 5600));
    let none = envelope(&lights, &Vec::new());
    assert_eq!((none.any_rgb, none.cct_min, none.cct_max), (true, 2500, 10000));
    let mut panel = Panel::new();
    panel.tab = Tab::Hsi;
    assert_eq!(panel.pane(&common), Tab::Cct);
    assert_eq!(panel.slide(Slider::CctTemp, 9000), cct(9000, 100));
    assert_eq!(panel.shown_temp(&common), 5600);
    assert_eq!(panel.slide(Slider::CctBri, 7), cct(9000, 7));
    assert_eq!(panel.slide(Slider::HsiHue, 1), hsi(1, 100, 100));
    let disjoint = vec![
        {
            let mut low = light("low", "Low");
            low.caps.cct_max = Kelvin::new(3000).unwrap();
            low
        },
        {
            let mut high = light("high", "High");
            high.caps.cct_min = Kelvin::new(5000).unwrap();
            high
        },
    ];
    let all = vec![LightId::sim("low"), LightId::sim("high")];
    let envelope = envelope(&disjoint, &all);
    assert_eq!((envelope.cct_min, envelope.cct_max), (2500, 10000));
}

#[test]
fn slug_display_is_the_stable_identifier() {
    let id = PresetId::parse("warm-light-2").unwrap();
    assert_eq!(preset_slug_display(&id), "warm-light-2");
}

#[test]
fn resolves_known_and_missing_targets() {
    let lights = vec![light("key", "Key light")];
    assert_eq!(
        target_label(&PresetTarget::Everything, &lights),
        ("All lights".into(), false)
    );
    assert_eq!(
        target_label(
            &PresetTarget::Light {
                id: LightId::sim("key")
            },
            &lights
        ),
        ("Key light".into(), false)
    );
    assert_eq!(
        target_label(
            &PresetTarget::Light {
                id: LightId::sim("fill")
            },
            &lights
        ),
        (LightId::sim("fill").as_str().to_owned(), true)
    );
}

fn summary(id: &str, name: &str) -> AnimationSummary {
    AnimationSummary {
        id: AnimationId::parse(id).unwrap(),
        name: name.to_owned(),
        description: String::new(),
        keyframes: 1,
        loop_default: false,
        slot_count: 0,
    }
}

#[test]
fn filtering_is_case_insensitive_and_preserves_order() {
    let items = vec![summary("warm-wave", "Warm Wave"), summary("rain", "Rain")];
    assert_eq!(
        filtered_animations(&items, "WA")
            .into_iter()
            .map(|item| item.name)
            .collect::<Vec<_>>(),
        vec!["Warm Wave"]
    );
    assert_eq!(filtered_animations(&items, "").len(), 2);
}

#[test]
fn the_animation_panel_reads_what_is_entered() {
    let items = vec![summary("warm-wave", "Warm Wave"), summary("rain", "Rain")];
    assert_eq!(filtered_animations(&items, "  rAi ").len(), 1);
    assert_eq!(filtered_animations(&items, "zz").len(), 0);
    let id = Some(AnimationId::parse("rain").unwrap());
    assert_eq!(chosen_animation(&items, &id), Some(1));
    assert_eq!(chosen_animation(&items, &None), None);
    assert_eq!(entered_number("45", 1, 30), Some(30));
    assert_eq!(entered_number("0", 1, 30), Some(1));
    assert_eq!(entered_number("7", 1, 30), Some(7));
    assert_eq!(entered_number("256", 1, 30), None);
    assert_eq!(entered_number("x", 1, 30), None);
    let options = play_options(Single { bits: 2.0_f32.to_bits() }, 7, Single { bits: 0 }, true);
    assert_eq!(options.loop_override, Some(true));
    assert!(options.revert_on_finish && options.max_loops == 0 && options.fps == 7);
}

#[test]
fn deleting_a_preset_takes_two_presses() {
    let warm = PresetId::parse("warm").unwrap();
    let cold = PresetId::parse("cold").unwrap();
    let mut editor = PresetEditor::new();
    assert!(!editor.saving && editor.refresh == 0);
    assert_eq!((editor.save_name.as_str(), editor.edit_name.as_str()), ("", ""));
    assert!(!editor.press_delete(&warm));
    assert!(editor.is_confirming(&warm));
    assert!(!editor.press_delete(&cold));
    assert!(!editor.is_confirming(&warm));
    assert!(editor.press_delete(&cold));
    editor.deleted();
    assert!(!editor.is_confirming(&cold));
    assert_eq!(editor.refresh, 1);
    editor.press_delete(&warm);
    editor.start_editing(&warm, &"Warm".to_owned());
    assert!(editor.is_editing(&warm) && !editor.is_confirming(&warm));
    assert_eq!(editor.edit_name, "Warm");
    editor.renamed();
    assert!(!editor.is_editing(&warm));
    editor.press_delete(&warm);
    editor.start_saving();
    assert!(editor.saving && !editor.is_confirming(&warm));
    editor.cancel_saving();
    assert!(!editor.saving);
    editor.start_saving();
    editor.save_name = "x".to_owned();
    editor.saved();
    assert!(!editor.saving && editor.save_name.is_empty() && editor.refresh == 3);
    editor.start_editing(&cold, &"Cold".to_owned());
    editor.cancel_editing();
    assert!(!editor.is_editing(&cold));
    assert_eq!(entered_name("  Look "), Some("Look".to_owned()));
    assert_eq!(entered_name(" \t"), None);
}

#[test]
fn selections_toggle_and_are_sent_in_order() {
    let lights = vec![light("b", "B"), light("a", "A"), light("c", "C")];
    let mut selection = Selection::new();
    assert!(matches!(selection.selector(), Selector::All));
    assert!(selection.chosen_ids().is_none());
    selection.toggle_all(&lights);
    assert!(selection.has_all(&lights));
    let Selector::Ids { ids } = selection.selector() else {
        panic!("lights are selected");
    };
    let names: Vec<_> = ids.iter().map(|id| id.as_str()).collect();
    assert_eq!(names, ["sim:a", "sim:b", "sim:c"]);
    selection.toggle(&LightId::sim("a"));
    assert!(!selection.contains(&LightId::sim("a")) && selection.contains(&LightId::sim("b")));
    selection.toggle_all(&lights);
    assert!(selection.has_all(&lights));
    selection.toggle_all(&lights);
    assert!(selection.ids.is_empty());
    assert!(!selection.has_all(&[]));
    let command = light_command(&LightId::sim("a"), Mode::On);
    assert!(matches!(command.selector, Selector::Ids { ids } if ids == [LightId::sim("a")]));
}

#[test]
fn responses_are_judged_by_their_status() {
    assert!(check_response(204, &None).is_ok());
    assert!(matches!(check_response(401, &None), Err(RequestError::Auth)));
    let failure = check_response(503, &Some("down".to_owned())).unwrap_err();
    assert_eq!(failure.message(), "daemon returned HTTP 503: down");
    let failure = check_response(302, &Some(String::new())).unwrap_err();
    assert_eq!(failure.message(), "daemon returned HTTP 302");
    assert_eq!(RequestError::Auth.message(), "authentication required");
    assert_eq!(authorization("secret").unwrap(), "Bearer secret");
    assert!(authorization("").is_none());
    assert_eq!(
        starting_token(Some("a".into()), Some("b".into())),
        (Some("a".into()), true)
    );
    assert_eq!(starting_token(None, Some("b".into())), (Some("b".into()), false));
    assert!(should_clear(&Some("x".into()), &"x".into()));
    assert!(!should_clear(&Some("y".into()), &"x".into()));
}

#[test]
fn a_connection_counts_attempts_until_it_is_welcome() {
    let mut world = WorldSnapshot {
        seq: 3,
        lights: Vec::new(),
        playback: None,
    };
    let mut connection = Connection::new(&world);
    assert_eq!(connection.dialling(), ConnStatus::Connecting);
    assert!(matches!(
        connection.hello("t".into()),
        ClientMsg::Hello { protocol_version: 1, last_seq: Some(3), .. }
    ));
    assert_eq!(connection.lost(), (ConnStatus::Reconnecting { attempt: 1 }, 63));
    assert_eq!(connection.wait_ms(5), 255);
    assert_eq!(connection.lost(), (ConnStatus::Reconnecting { attempt: 2 }, 126));
    assert_eq!(connection.dialling(), ConnStatus::Reconnecting { attempt: 2 });
    let refused = connection.receive(
        &mut world,
        &ServerMsg::Error {
            message: "no".into(),
        },
    );
    assert!(matches!(refused, Received::Refused(words) if words == "no"));
    let welcome = connection.receive(
        &mut world,
        &ServerMsg::Welcome {
            protocol_version: 1,
            server_version: "1".into(),
            session: "s".into(),
            seq: 9,
            snapshot: None,
        },
    );
    assert!(matches!(welcome, Received::Live));
    assert_eq!((connection.attempt, connection.last_seq), (0, 3));
    connection.receive(
        &mut world,
        &ServerMsg::Patch {
            events: vec![SeqEvent {
                seq: 4,
                event: Event::Light {
                    light: light("one", "One"),
                },
            }],
        },
    );
    assert_eq!((connection.last_seq, world.lights.len()), (4, 1));
}
