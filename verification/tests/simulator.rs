use lumiere::caps::Capabilities;
use lumiere::id::LightId;
use lumiere::idmap::IdMap;
use lumiere::mode::{Kelvin, Mode, Percent};
use lumiere::scan::{light_filter, should_report};
use lumiere::sim::{demo_lights, SimLightSpec, Simulator};
use lumiere::transport::{ScanFilter, Timeout, TransportError};
use lumiere::wire::{encode, Decoded};

fn light(name: &str, advertised_name: &str, connect_failures: u32) -> SimLightSpec {
    SimLightSpec {
        id: LightId::sim(name),
        advertised_name: advertised_name.into(),
        rssi: -42,
        connect_failures,
    }
}

fn cct_packet(bri: u8) -> Vec<u8> {
    let caps = Capabilities {
        cct_min: Kelvin::new(3200).unwrap(),
        cct_max: Kelvin::new(5600).unwrap(),
        rgb: true,
        scenes: true,
        cct_split_packets: false,
        reports_status: false,
    };
    encode(
        Mode::Cct {
            temp: Kelvin::new(4200).unwrap(),
            bri: Percent::new(bri).unwrap(),
        },
        &caps,
    )
    .packets()[0]
        .as_bytes()
        .to_vec()
}

fn write(
    sim: &mut Simulator,
    id: &LightId,
    connection: u64,
    payload: &[u8],
) -> Result<(), TransportError> {
    let attempt = sim.begin_write(id, connection)?;
    sim.finish_write(id, connection, attempt, payload, 7)
}

#[test]
fn scan_filters_and_reports_each_light_once() {
    let sim = Simulator::new(
        vec![
            light("1", "NEEWER-RGB660 PRO", 0),
            light("2", "OTHER", 0),
            light("3", "NEEWER-CB60", 0),
        ],
        None,
    );
    let found = sim.scan(&ScanFilter {
        name_prefix: Some("NEEWER-".into()),
    });
    assert_eq!(found.len(), 2);
    assert_eq!(found[0].id, LightId::sim("1"));
    assert_eq!(found[1].id, LightId::sim("3"));
    assert_eq!(found[1].name.as_deref(), Some("NEEWER-CB60"));
    assert_eq!(found[1].rssi, Some(-42));
    assert_eq!(sim.scan(&ScanFilter::default()).len(), 3);
    assert_eq!(sim.scan(&light_filter()).len(), 2);
}

#[test]
fn connection_failures_are_consumed_before_success() {
    let id = LightId::sim("1");
    let mut sim = Simulator::new(vec![light("1", "NEEWER", 2)], None);
    for _ in 0..2 {
        assert!(matches!(
            sim.connect(&id),
            Err(TransportError::ConnectFailed { .. })
        ));
        assert!(!sim.has_link(&id));
    }
    let link = sim.connect(&id).unwrap();
    assert!(sim.is_connected(&id, link));
    assert!(sim.has_link(&id));
    assert!(matches!(
        sim.connect(&LightId::sim("2")),
        Err(TransportError::NotFound { .. })
    ));
}

#[test]
fn write_latency_and_decoding_are_recorded() {
    let id = LightId::sim("1");
    let latency = 25;
    let started = 1000;
    let mut sim = Simulator::new(vec![light("1", "NEEWER", 0)], None);
    let link = sim.connect(&id).unwrap();
    let attempt = sim.begin_write(&id, link).unwrap();
    assert!(sim.lights[0].timeline.is_empty());
    sim.finish_write(&id, link, attempt, &cct_packet(75), started + latency)
        .unwrap();
    assert_eq!(
        sim.lights[0].timeline,
        vec![(
            started + latency,
            Decoded::Cct {
                temp_hk: 42,
                bri: 75
            }
        )]
    );
}

#[test]
fn every_nth_write_fails_globally() {
    let id = LightId::sim("1");
    let mut sim = Simulator::new(vec![light("1", "NEEWER", 0)], Some(3));
    let link = sim.connect(&id).unwrap();
    let mut outcomes = Vec::new();
    for bri in 1..=6 {
        outcomes.push(write(&mut sim, &id, link, &cct_packet(bri)).is_ok());
    }
    assert_eq!(outcomes, [true, true, false, true, true, false]);
    let brightnesses: Vec<_> = sim.lights[0]
        .timeline
        .iter()
        .map(|(_, decoded)| match decoded {
            Decoded::Cct { bri, .. } => *bri,
            other => panic!("unexpected decoded command {other:?}"),
        })
        .collect();
    assert_eq!(brightnesses, [1, 2, 4, 5]);
}

#[test]
fn forced_disconnect_closes_link_and_preserves_timeline() {
    let id = LightId::sim("1");
    let mut sim = Simulator::new(vec![light("1", "NEEWER", 0)], None);
    let link = sim.connect(&id).unwrap();
    write(&mut sim, &id, link, &cct_packet(50)).unwrap();
    sim.force_disconnect(&id);
    assert!(!sim.is_connected(&id, link));
    assert!(matches!(
        write(&mut sim, &id, link, &cct_packet(60)),
        Err(TransportError::Disconnected { .. })
    ));
    assert_eq!(sim.lights[0].timeline.len(), 1);
    let link = sim.connect(&id).unwrap();
    sim.disconnect(&id, link + 1);
    assert!(sim.is_connected(&id, link));
    sim.disconnect(&id, link);
    assert!(!sim.has_link(&id));
}

#[test]
fn garbage_is_rejected_without_recording_it() {
    let id = LightId::sim("1");
    let mut sim = Simulator::new(vec![light("1", "NEEWER", 0)], None);
    let link = sim.connect(&id).unwrap();
    let error = write(&mut sim, &id, link, &[0xde, 0xad]).unwrap_err();
    assert!(matches!(error, TransportError::WriteFailed { .. }));
    assert_eq!(
        error.message(),
        "write to light sim:1 failed: packet is truncated: expected at least 4 bytes, got 2"
    );
    assert!(sim.lights[0].timeline.is_empty());
}

#[test]
fn second_connection_replaces_first() {
    let id = LightId::sim("1");
    let mut sim = Simulator::new(vec![light("1", "NEEWER", 0)], None);
    let old = sim.connect(&id).unwrap();
    let new = sim.connect(&id).unwrap();
    assert!(!sim.is_connected(&id, old));
    assert!(matches!(
        write(&mut sim, &id, old, &cct_packet(10)),
        Err(TransportError::Disconnected { .. })
    ));
    write(&mut sim, &id, new, &cct_packet(20)).unwrap();
    assert!(sim.is_connected(&id, new));
    assert_eq!(sim.lights[0].timeline.len(), 1);
}

#[test]
fn a_link_that_is_lost_during_a_write_fails_the_write() {
    let id = LightId::sim("1");
    let mut sim = Simulator::new(vec![light("1", "NEEWER", 0)], None);
    let link = sim.connect(&id).unwrap();
    let attempt = sim.begin_write(&id, link).unwrap();
    sim.force_disconnect(&id);
    let error = sim
        .finish_write(&id, link, attempt, &cct_packet(1), 0)
        .unwrap_err();
    assert_eq!(error.message(), "light sim:1 is disconnected");
}

#[test]
fn demonstration_lights_are_four() {
    let lights = demo_lights();
    let summary: Vec<_> = lights
        .iter()
        .map(|spec| (spec.id.as_str(), spec.advertised_name.as_str(), spec.rssi))
        .collect();
    assert_eq!(
        summary,
        [
            ("sim:1", "NEEWER-RGB660 PRO", -40),
            ("sim:2", "NEEWER-SNL660", -41),
            ("sim:3", "NEEWER-RGB176", -42),
            ("sim:4", "NEEWER-SL80", -43),
        ]
    );
}

#[test]
fn lights_are_reported_again_when_their_signal_moves() {
    let filter = ScanFilter {
        name_prefix: Some("NEEWER".into()),
    };
    let mut reported = IdMap::new();
    let id = LightId::sim("1");
    let mut report = |name: Option<&str>, rssi| should_report(&filter, &mut reported, &id, name, rssi);
    assert!(!report(None, Some(-40)));
    assert!(!report(Some("OTHER"), Some(-40)));
    assert!(report(Some("NEEWER-1"), Some(-40)));
    assert!(!report(Some("NEEWER-1"), Some(-44)));
    assert!(report(Some("NEEWER-1"), Some(-45)));
    assert!(!report(Some("NEEWER-1"), Some(-41)));
    assert!(!report(Some("NEEWER-1"), None));
    assert!(report(Some("NEEWER-1"), Some(-30)));
}

#[test]
fn transport_errors_are_described() {
    assert!(Timeout::new(1, 1_000_000_000).is_none());
    let id = || LightId::sim("x");
    let cases = [
        (TransportError::AdapterUnavailable, "Bluetooth adapter is unavailable"),
        (TransportError::NotFound { id: id() }, "light sim:x was not found"),
        (
            TransportError::ConnectFailed { id: id() },
            "failed to connect to light sim:x",
        ),
        (
            TransportError::TimedOut {
                id: id(),
                timeout: Timeout::new(2, 500_000_000).unwrap(),
            },
            "operation on light sim:x timed out after 2.5s",
        ),
        (
            TransportError::TimedOut {
                id: id(),
                timeout: Timeout::new(0, 1_500_000).unwrap(),
            },
            "operation on light sim:x timed out after 1.5ms",
        ),
        (
            TransportError::Backend {
                id: None,
                message: "boom".into(),
            },
            "Bluetooth operation failed: boom",
        ),
        (
            TransportError::Backend {
                id: Some(id()),
                message: "boom".into(),
            },
            "Bluetooth operation failed for light sim:x: boom",
        ),
    ];
    for (error, words) in cases {
        assert_eq!(error.message(), words);
    }
}
