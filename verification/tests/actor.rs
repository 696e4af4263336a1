use lumiere::caps::Capabilities;
use lumiere::id::LightId;
use lumiere::light::{
    mode_after_wait, retry_delay, skipped, Delivery, Dial, LightCore, Resolution, Waiting,
};
use lumiere::mode::{Hue, Kelvin, Mode, Percent, SceneId};
use lumiere::state::{ConnState, PerLightResult, SkipReason};
use lumiere::wire::{decode, Decoded};

fn caps(rgb: bool) -> Capabilities {
    Capabilities {
        cct_min: Kelvin::new(3200).unwrap(),
        cct_max: Kelvin::new(5600).unwrap(),
        rgb,
        scenes: rgb,
        cct_split_packets: !rgb,
        reports_status: true,
    }
}

fn cct(temp: u16, bri: u8) -> Mode {
    Mode::Cct {
        temp: Kelvin::new(temp).unwrap(),
        bri: Percent::new(bri).unwrap(),
    }
}

fn hsi(hue: u16) -> Mode {
    Mode::Hsi {
        hue: Hue::new(hue).unwrap(),
        sat: Percent::new(80).unwrap(),
        bri: Percent::new(60).unwrap(),
    }
}

fn linked(rgb: bool) -> LightCore {
    let mut core = LightCore::new(caps(rgb), 0);
    assert_eq!(core.connect(false).0, Dial::Needed);
    core.connected();
    core
}

fn deliver(core: &mut LightCore, mode: Mode) -> Delivery {
    match core.resolve(mode, true) {
        Resolution::Deliver(delivery) => delivery,
        Resolution::Skip(reason) => panic!("skipped: {reason:?}"),
    }
}

fn packets(delivery: &Delivery) -> Vec<Decoded> {
    let wake = delivery.wake.iter().flat_map(|wake| wake.packets());
    wake.chain(delivery.packets.packets())
        .map(|packet| decode(packet.as_bytes()).unwrap())
        .collect()
}

#[test]
fn the_first_lit_write_on_a_link_wakes_the_light() {
    let id = LightId::sim("one");
    let mut core = linked(true);
    let delivery = deliver(&mut core, cct(4200, 70));
    assert_eq!(
        packets(&delivery),
        [Decoded::Power(true), Decoded::Cct { temp_hk: 42, bri: 70 }]
    );
    let result = core.settle(&id, &delivery, 2, None);
    assert!(matches!(result, PerLightResult::Applied { mode, .. } if mode == cct(4200, 70)));
    assert_eq!(packets(&deliver(&mut core, hsi(1))).len(), 1);
    let off = deliver(&mut core, Mode::Off);
    assert_eq!(packets(&off), [Decoded::Power(false)]);
    core.settle(&id, &off, 1, None);
    assert_eq!(packets(&deliver(&mut core, hsi(1))).len(), 2);
    core.settle(&id, &delivery, 2, None);
    core.lost_link();
    core.connected();
    assert_eq!(packets(&deliver(&mut core, hsi(1))).len(), 2);
    let mut fresh = linked(true);
    assert_eq!(packets(&deliver(&mut fresh, Mode::Off)), [Decoded::Power(false)]);
}

#[test]
fn colors_become_temperatures_on_bicolor_lights() {
    let id = LightId::sim("snl660");
    let mut core = linked(false);
    let mode = Mode::Hsi {
        hue: Hue::new(120).unwrap(),
        sat: Percent::new(80).unwrap(),
        bri: Percent::new(60).unwrap(),
    };
    let delivery = deliver(&mut core, mode);
    // Green (hue 120) lands mid-ramp in the 3200 to 5600 K range: 4000 K.
    let expected = Mode::Cct {
        temp: Kelvin::new(4000).unwrap(),
        bri: Percent::new(60).unwrap(),
    };
    // The light is woken, and needs split packets: brightness then temperature.
    assert_eq!(
        packets(&delivery),
        [
            Decoded::Power(true),
            Decoded::BriOnly(60),
            Decoded::TempOnly(40)
        ]
    );
    match core.settle(&id, &delivery, 3, None) {
        PerLightResult::Adapted {
            id: light,
            requested,
            applied,
        } => {
            assert_eq!(light, id);
            assert_eq!((requested, applied), (mode, expected));
        }
        other => panic!("unexpected result {other:?}"),
    }
}

#[test]
fn temperatures_are_held_within_the_device_range() {
    let id = LightId::sim("rgb660");
    let mut core = linked(true);
    let requested = Mode::Cct {
        temp: Kelvin::new(9000).unwrap(),
        bri: Percent::new(50).unwrap(),
    };
    let applied = Mode::Cct {
        temp: Kelvin::new(5600).unwrap(),
        bri: Percent::new(50).unwrap(),
    };
    let delivery = deliver(&mut core, requested);
    assert_eq!(
        packets(&delivery),
        [
            Decoded::Power(true),
            Decoded::Cct {
                temp_hk: 56,
                bri: 50
            }
        ]
    );
    match core.settle(&id, &delivery, 2, None) {
        PerLightResult::Adapted {
            requested: asked,
            applied: set,
            ..
        } => assert_eq!((asked, set), (requested, applied)),
        other => panic!("unexpected result {other:?}"),
    }
}

#[test]
fn lights_are_skipped_for_a_reason() {
    let scene = Mode::Scene {
        scene: SceneId::new(3).unwrap(),
        bri: Percent::new(80).unwrap(),
    };
    let mut core = linked(false);
    assert!(matches!(
        core.resolve(scene, true),
        Resolution::Skip(SkipReason::UnsupportedMode)
    ));
    // The request counts as written: its echo is dropped.
    assert_eq!(core.mode_to_write(Some(scene)), None);
    assert!(matches!(
        core.resolve(Mode::On, false),
        Resolution::Skip(SkipReason::NotConnected)
    ));
    let mut idle = LightCore::new(caps(true), 0);
    assert!(matches!(
        idle.resolve(Mode::On, true),
        Resolution::Skip(SkipReason::NotConnected)
    ));
    let result = skipped(&LightId::sim("x"), SkipReason::NotConnected);
    assert!(matches!(
        result,
        PerLightResult::Skipped {
            reason: SkipReason::NotConnected,
            ..
        }
    ));
}

#[test]
fn the_echo_of_an_acknowledged_mode_is_not_written_again() {
    let id = LightId::sim("one");
    let mut core = linked(true);
    assert_eq!(core.mode_to_write(None), None);
    assert_eq!(core.mode_to_write(Some(hsi(10))), Some(hsi(10)));
    let delivery = deliver(&mut core, hsi(10));
    core.settle(&id, &delivery, 2, None);
    assert_eq!(core.mode_to_write(Some(hsi(10))), None);
    assert_eq!(core.mode_to_write(Some(hsi(200))), Some(hsi(200)));
    // A fresh link always gets a full rewrite.
    core.lost_link();
    core.take_retry();
    core.connected();
    assert_eq!(core.mode_to_write(Some(hsi(10))), Some(hsi(10)));
}

#[test]
fn failures_are_reported_and_forget_what_was_written() {
    let id = LightId::sim("one");
    let mut core = linked(true);
    let delivery = deliver(&mut core, hsi(10));
    let result = core.settle(&id, &delivery, 0, Some("boom".into()));
    assert!(matches!(result, PerLightResult::Failed { error, .. } if error == "boom"));
    assert!(!core.power_known_on);
    // The wake packet got through, the mode did not.
    core.settle(&id, &delivery, 1, Some("boom".into()));
    assert!(core.power_known_on);
    assert_eq!(core.last_written, None);
}

#[test]
fn a_lost_light_is_retried_five_times() {
    let mut core = linked(true);
    assert_eq!(core.waiting(), Waiting::Link);
    assert_eq!(core.lost_link(), (ConnState::Reconnecting { attempt: 1 }, 250));
    let mut delays = Vec::new();
    for attempt in 1..=4 {
        assert_eq!(core.waiting(), Waiting::Retry);
        assert_eq!(core.take_retry(), Some(attempt));
        let (state, delay) = core.retry_failed(attempt);
        assert_eq!(
            state,
            ConnState::Reconnecting {
                attempt: attempt + 1
            }
        );
        delays.push(delay.unwrap());
    }
    assert_eq!(delays, [500, 1000, 2000, 4000]);
    assert_eq!(core.take_retry(), Some(5));
    assert_eq!(core.retry_failed(5), (ConnState::Lost, None));
    assert_eq!(core.waiting(), Waiting::Nothing);
    assert_eq!(core.take_retry(), None);
}

#[test]
fn retry_delays_are_exponential_and_capped() {
    let delays: Vec<_> = (0..=10).map(retry_delay).collect();
    assert_eq!(
        delays,
        [250, 250, 500, 1000, 2000, 4000, 8000, 16000, 30000, 30000, 30000]
    );
    assert_eq!(retry_delay(u32::MAX), 30000);
}

#[test]
fn connecting_and_disconnecting_drop_a_pending_attempt() {
    let mut core = linked(true);
    core.lost_link();
    assert_eq!(
        core.connect(false),
        (Dial::Needed, ConnState::Connecting { attempt: 1 })
    );
    assert_eq!(core.waiting(), Waiting::Nothing);
    core.connected();
    assert_eq!(core.connect(true), (Dial::Connected, ConnState::Connected));
    assert!(core.disconnect());
    assert!(!core.disconnect());
    assert!(!core.finished());
    core.ops_open = false;
    core.desired_open = false;
    assert!(core.finished());
}

#[test]
fn writes_are_spaced_by_the_interval() {
    let mut core = linked(true);
    assert_eq!(core.write_wait(0), None);
    core.wrote(100, 50);
    assert_eq!(core.write_wait(149), Some(150));
    assert_eq!(core.write_wait(150), None);
    assert_eq!(mode_after_wait(hsi(1), true, Some(hsi(2))), hsi(2));
    assert_eq!(mode_after_wait(hsi(1), false, Some(hsi(2))), hsi(1));
    assert_eq!(mode_after_wait(hsi(1), true, None), hsi(1));
}
