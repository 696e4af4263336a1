use lumiere::events::replay_since;
use lumiere::id::LightId;
use lumiere::idmap::IdMap;
use lumiere::models::{ModelTable, RawCaps, RawTable};
use lumiere::registry::Registry;
use lumiere::session::{check_hello, greet, Incoming, Keepalive, Refusal, Response, Stream};
use lumiere::state::{ClientMsg, Event, ResyncReason, SeqEvent, ServerMsg, WorldSnapshot};
use lumiere::store::{read_labels, Stored, StoreUpdate};
use lumiere::tickets::Tickets;
use lumiere::transport::Discovered;
use lumiere::web::{cache_control, must_not_cache, requested_asset};
use lumiere::world::apply_server_message;
use std::collections::VecDeque;

fn hello(version: u32, ticket: &str, last_seq: Option<u64>) -> Option<ClientMsg> {
    Some(ClientMsg::Hello {
        protocol_version: version,
        ticket: ticket.into(),
        last_seq,
    })
}

fn event(seq: u64) -> SeqEvent {
    SeqEvent {
        seq,
        event: Event::LightRemoved {
            id: LightId::sim("x"),
        },
    }
}

fn registry(lights: usize) -> Registry {
    let table = ModelTable::from_raw(&RawTable {
        defaults: RawCaps {
            cct_min: 3200,
            cct_max: 5600,
            rgb: true,
            scenes: true,
            cct_split_packets: false,
            reports_status: true,
        },
        models: Vec::new(),
    })
    .unwrap();
    let mut registry = Registry::new(IdMap::new(), Vec::new(), Vec::new());
    for n in 0..lights {
        registry.discovered(
            Discovered {
                id: LightId::sim(&format!("{n}")),
                name: None,
                rssi: None,
            },
            &table,
        );
    }
    registry
}

#[test]
fn tickets_open_one_stream_and_expire() {
    let mut tickets = Tickets::new();
    let one = "one".to_owned();
    let two = "two".to_owned();
    assert!(!tickets.consume(&one, 0));
    tickets.issue(&one, 1000);
    tickets.issue(&two, 1000);
    assert!(tickets.consume(&one, 30_999));
    assert!(!tickets.consume(&one, 30_999));
    assert!(!tickets.consume(&two, 31_000));
    tickets.issue(&one, 1000);
    tickets.issue(&two, 31_000);
    assert!(!tickets.consume(&one, 2000), "issuing forgets what has expired");
    assert!(tickets.consume(&two, 31_001));
}

#[test]
fn clients_are_turned_away_for_a_reason() {
    let mut tickets = Tickets::new();
    tickets.issue(&"good".to_owned(), 0);
    assert_eq!(
        check_hello(&None, &mut tickets, 1),
        Err(Refusal::ExpectedHello)
    );
    let ping = Some(ClientMsg::Ping { nonce: 1 });
    assert_eq!(
        check_hello(&ping, &mut tickets, 1),
        Err(Refusal::ExpectedHello)
    );
    assert_eq!(
        check_hello(&hello(2, "good", None), &mut tickets, 1),
        Err(Refusal::UnsupportedVersion)
    );
    assert_eq!(
        check_hello(&hello(1, "bad", None), &mut tickets, 1),
        Err(Refusal::InvalidTicket)
    );
    assert_eq!(check_hello(&hello(1, "good", Some(3)), &mut tickets, 1), Ok(Some(3)));
    assert_eq!(
        check_hello(&hello(1, "good", Some(3)), &mut tickets, 1),
        Err(Refusal::InvalidTicket)
    );
    for (refusal, words) in [
        (Refusal::ExpectedHello, "expected hello"),
        (Refusal::UnsupportedVersion, "unsupported protocol version"),
        (Refusal::InvalidTicket, "invalid or expired ticket"),
    ] {
        assert!(matches!(refusal.message(), ServerMsg::Error { message } if message == words));
    }
}

#[test]
fn a_new_client_gets_a_snapshot_and_an_old_one_what_it_missed() {
    let registry = registry(3);
    let ring = registry.recent_events();
    let fresh = greet(None, registry.world(), &ring, "session", "1.0");
    match fresh.welcome {
        ServerMsg::Welcome {
            protocol_version,
            server_version,
            session,
            seq,
            snapshot,
        } => {
            assert_eq!((protocol_version, seq), (1, 3));
            assert_eq!((server_version.as_str(), session.as_str()), ("1.0", "session"));
            assert_eq!(snapshot.unwrap().lights.len(), 3);
        }
        other => panic!("unexpected message: {other:?}"),
    }
    assert!(fresh.patch.is_none());
    assert_eq!(fresh.last_seq, 3);
    let back = greet(Some(1), registry.world(), &ring, "session", "1.0");
    assert!(matches!(back.welcome, ServerMsg::Welcome { snapshot: None, .. }));
    assert!(matches!(back.patch, Some(ServerMsg::Patch { events }) if events.len() == 2));
    assert_eq!(back.last_seq, 3);
    let current = greet(Some(3), registry.world(), &ring, "session", "1.0");
    assert!(matches!(current.patch, Some(ServerMsg::Patch { events }) if events.is_empty()));
}

#[test]
fn stale_future_last_seq_gets_a_snapshot() {
    let registry = registry(2);
    let ring = registry.recent_events();
    let greeting = greet(Some(1_000_000), registry.world(), &ring, "session", "1.0");
    assert!(
        matches!(greeting.welcome, ServerMsg::Welcome { snapshot: Some(_), .. }),
        "future last_seq must force a snapshot"
    );
}

#[test]
fn greetings_bring_clients_up_to_date() {
    let registry = registry(300);
    let ring = registry.recent_events();
    for last_seq in [None, Some(0), Some(43), Some(44), Some(299), Some(300), Some(301)] {
        let mut client = WorldSnapshot {
            seq: 0,
            lights: Vec::new(),
            playback: None,
        };
        if let Some(seen @ 0..=300) = last_seq {
            client = registry.world();
            client.seq = seen;
            client.lights.truncate(seen as usize);
        }
        let greeting = greet(last_seq, registry.world(), &ring, "s", "1");
        apply_server_message(&mut client, &greeting.welcome);
        if let Some(patch) = &greeting.patch {
            apply_server_message(&mut client, patch);
        }
        assert_eq!(client, registry.world());
        assert_eq!(greeting.last_seq, 300);
    }
}

#[test]
fn a_replay_newer_than_the_world_moves_the_filter() {
    let world = WorldSnapshot {
        seq: 4,
        lights: Vec::new(),
        playback: None,
    };
    let ring: VecDeque<_> = (2..=6).map(event).collect();
    let greeting = greet(Some(3), world, &ring, "s", "1");
    assert_eq!(greeting.last_seq, 6);
    let stream = Stream::new(greeting.last_seq, 0);
    assert!(!stream.wants(&event(6)));
    assert!(stream.wants(&event(7)));
}

#[test]
fn replays_need_every_event_of_the_gap() {
    let ring: VecDeque<_> = (5..=8).map(event).collect();
    assert!(replay_since(&ring, 3).is_none());
    let seqs = |seq| {
        replay_since(&ring, seq)
            .unwrap()
            .iter()
            .map(|event| event.seq)
            .collect::<Vec<_>>()
    };
    assert_eq!(seqs(4), [5, 6, 7, 8]);
    assert_eq!(seqs(7), [8]);
    assert!(seqs(8).is_empty() && seqs(u64::MAX).is_empty());
    assert!(replay_since(&VecDeque::new(), 9).unwrap().is_empty());
}

#[test]
fn streams_answer_and_follow_events() {
    let mut stream = Stream::new(3, 0);
    assert_eq!(
        stream.receive(&Incoming::Text(Some(ClientMsg::Ping { nonce: 42 }))),
        Response::Pong { nonce: 42 }
    );
    assert_eq!(stream.receive(&Incoming::Text(None)), Response::Nothing);
    assert_eq!(stream.receive(&Incoming::Ping), Response::Echo);
    assert_eq!(stream.receive(&Incoming::Binary), Response::Nothing);
    assert_eq!(stream.receive(&Incoming::Closed), Response::Close);
    assert!(matches!(
        stream.patch(vec![event(4), event(5)]),
        ServerMsg::Patch { events } if events.len() == 2
    ));
    assert_eq!(stream.last_seq, 5);
    let world = WorldSnapshot {
        seq: 9,
        lights: Vec::new(),
        playback: None,
    };
    assert!(matches!(
        stream.resync(world),
        ServerMsg::Resync {
            reason: ResyncReason::ClientLagged,
            ..
        }
    ));
    assert_eq!(stream.last_seq, 9);
}

#[test]
fn silent_clients_are_asked_twice() {
    let mut stream = Stream::new(0, 0);
    assert_eq!(stream.tick(14_999), Keepalive::Quiet);
    assert_eq!(stream.tick(15_000), Keepalive::Ping);
    assert_eq!(stream.tick(15_001), Keepalive::Quiet);
    assert_eq!(stream.tick(30_000), Keepalive::Ping);
    stream.receive(&Incoming::Pong);
    assert_eq!(stream.tick(45_000), Keepalive::Ping);
    assert_eq!(stream.tick(60_000), Keepalive::Ping);
    assert_eq!(stream.tick(75_000), Keepalive::Close);
    stream.sent(75_000);
    assert_eq!(stream.tick(80_000), Keepalive::Quiet);
}

#[test]
fn labels_are_persisted_and_restored() {
    let mut stored = Stored {
        labels: read_labels(&vec![
            ("sim:1".to_owned(), "Key".to_owned()),
            ("mac:aa:0b:cc:dd:ee:ff".to_owned(), "Old".to_owned()),
            ("mac:AA:0B:CC:DD:EE:FF".to_owned(), "New".to_owned()),
        ])
        .unwrap(),
        presets: Vec::new(),
    };
    let mac = LightId::mac("aa:0b:cc:dd:ee:ff").unwrap();
    assert_eq!(stored.labels.get(&mac).map(String::as_str), Some("New"));
    assert_eq!(stored.labels.pairs().len(), 2);
    stored.apply(StoreUpdate::Label {
        id: LightId::sim("1"),
        label: "Rim".into(),
    });
    assert_eq!(stored.labels.get(&LightId::sim("1")).map(String::as_str), Some("Rim"));
    assert_eq!(stored.labels.get(&LightId::sim("2")), None);
    stored.apply(StoreUpdate::Presets(Vec::new()));
    let error = read_labels(&vec![
        ("sim:1".to_owned(), "Key".to_owned()),
        ("usb:1".to_owned(), "Key".to_owned()),
    ])
    .unwrap_err();
    assert_eq!(error.message(), "invalid namespaced light identifier: usb:1");
}

#[test]
fn pages_are_not_cached_and_assets_are() {
    assert_eq!(requested_asset("/"), "index.html");
    assert_eq!(requested_asset(""), "index.html");
    assert_eq!(requested_asset("//assets/a.js"), "assets/a.js");
    assert_eq!(cache_control(&"index.html".to_owned()), "no-cache");
    assert_eq!(
        cache_control(&"a.js".to_owned()),
        "public, max-age=31536000, immutable"
    );
    let page = |path: &str, kind, status| must_not_cache(&path.to_owned(), kind, status);
    assert!(page("/lights", Some("text/html; charset=utf-8"), 200));
    assert!(!page("/lights", Some("text/html"), 404));
    assert!(!page("/lights", Some("text/css"), 200));
    assert!(!page("/lights", None, 200));
    assert!(!page("/healthz", Some("text/html"), 200));
    assert!(!page("/api/v1/x", Some("text/html"), 200));
}

#[test]
fn no_event_is_sent_twice_on_a_stream() {
    let world = |seq| WorldSnapshot {
        seq,
        lights: Vec::new(),
        playback: None,
    };
    let ring: VecDeque<_> = (2..=6).map(event).collect();
    // The last replayed events are newer than the world, and come in again.
    let greeting = greet(Some(3), world(4), &ring, "s", "1");
    let mut stream = Stream::new(greeting.last_seq, 0);
    let mut sent = Vec::new();
    let mut note = |message: &ServerMsg| {
        if let ServerMsg::Patch { events } = message {
            sent.extend(events.iter().map(|event| event.seq));
        }
    };
    note(&greeting.patch.unwrap());
    for seq in 5..=6 {
        assert!(!stream.wants(&event(seq)));
    }
    assert!(stream.wants(&event(7)));
    note(&stream.deliver(vec![event(7), event(8)], None));
    assert!(stream.wants(&event(9)) && !stream.misses(&event(9)));
    assert!(stream.misses(&event(10)));
    let message = stream.deliver(vec![event(9)], Some(world(12)));
    assert!(matches!(message, ServerMsg::Resync { .. }));
    note(&message);
    assert!(!stream.wants(&event(12)));
    assert!(stream.wants(&event(13)));
    note(&stream.deliver(vec![event(13)], None));
    assert_eq!(sent, [4, 5, 6, 7, 8, 13]);
}
