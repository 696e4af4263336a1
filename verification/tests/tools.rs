use lumiere::animation::{AnimTarget, SlotNumber};
use lumiere::args::{log_directive, parse, Parsed, USAGE};
use lumiere::caps::Capabilities;
use lumiere::convert::{
    check_frames, claim_slug, convert_animation, convert_mode, convert_target, frame_count,
    integer, is_countable, notice_text, required, slug, Notice, SourceAnimation, SourceKeyframe,
    SourceParams,
};
use lumiere::id::LightId;
use lumiere::mode::{Hue, Kelvin, Mode, Percent};
use lumiere::models::{normalize, ModelTable, ModelTableError, RawCaps, RawModel, RawTable};
use lumiere::probe::{
    bench_mode, blink_mode, candidate_list, check_writes, choose_light, discovered_line, note_candidate,
    parse_args, parse_option, sort, stats, Command,
};
use lumiere::transport::Discovered;

fn texts(values: &[&str]) -> Vec<String> {
    values.iter().map(|value| (*value).to_owned()).collect()
}

#[test]
fn probe_arguments_are_read() {
    let read = |values: &[&str]| parse_args(texts(values));
    assert!(matches!(read(&["probe", "scan"]), Ok(Command::Scan { seconds: 10 })));
    assert!(matches!(
        read(&["probe", "scan", "--seconds", "+3"]),
        Ok(Command::Scan { seconds: 3 })
    ));
    assert!(matches!(
        read(&["probe", "blink", "GL1"]),
        Ok(Command::Blink { fragment, seconds: 6 }) if fragment == "GL1"
    ));
    assert!(matches!(
        read(&["probe", "bench", "GL1", "--writes", "100"]),
        Ok(Command::Bench { fragment, writes: 100 }) if fragment == "GL1"
    ));
    let fault = |values: &[&str]| read(values).unwrap_err();
    assert_eq!(fault(&[]), "");
    assert_eq!(fault(&["probe"]), "");
    assert_eq!(fault(&["dance", "scan"]), "unknown command \"dance\"");
    assert_eq!(fault(&["probe", "sing"]), "unknown probe command \"sing\"");
    assert_eq!(
        fault(&["probe", "blink"]),
        "blink requires an id or name fragment"
    );
    assert_eq!(
        fault(&["probe", "bench", "--writes", "3"]),
        "bench requires an id or name fragment before its options"
    );
    assert_eq!(
        fault(&["probe", "scan", "--seconds"]),
        "expected --seconds N"
    );
    assert_eq!(
        fault(&["probe", "scan", "--minutes", "3"]),
        "unknown option \"--minutes\""
    );
    assert_eq!(
        fault(&["probe", "blink", "x", "--seconds", "-1"]),
        "invalid value \"-1\" for --seconds"
    );
    assert_eq!(parse_option(&[], "--n", 3, 9), Ok(3));
    assert_eq!(
        parse_option(&texts(&["--n", "10"]), "--n", 3, 9).unwrap_err(),
        "invalid value \"10\" for --n"
    );
}

fn found(name: &str, advertised: Option<&str>) -> Discovered {
    Discovered {
        id: LightId::sim(name),
        name: advertised.map(str::to_owned),
        rssi: Some(-40),
    }
}

#[test]
fn fragments_choose_one_light_whatever_their_case() {
    let mut candidates = Vec::new();
    note_candidate(&mut candidates, found("1", Some("NEEWER-GL1 PRO")));
    note_candidate(&mut candidates, found("2", None));
    note_candidate(&mut candidates, found("1", Some("NEEWER-GL1")));
    note_candidate(&mut candidates, found("13", Some("Straße")));
    assert_eq!(candidates.len(), 3);
    assert_eq!(candidates[0].name.as_deref(), Some("NEEWER-GL1"));
    assert_eq!(choose_light(&candidates, "gl1").unwrap().id, LightId::sim("1"));
    assert_eq!(choose_light(&candidates, "SIM:2").unwrap().id, LightId::sim("2"));
    assert_eq!(choose_light(&candidates, "STRAß").unwrap().id, LightId::sim("13"));
    assert_eq!(
        choose_light(&candidates, "sim:1").unwrap_err(),
        "fragment is ambiguous. Matches: sim:1 (NEEWER-GL1), sim:13 (Straße)"
    );
    assert_eq!(
        choose_light(&candidates, "x").unwrap_err(),
        "no matching light found. Candidates: sim:1 (NEEWER-GL1), sim:2 (unknown name), sim:13 (Straße)"
    );
    assert_eq!(
        choose_light(&Vec::new(), "x").unwrap_err(),
        "no matching light found. Candidates: none"
    );
    assert_eq!(candidate_list(&candidates[1..2]), "sim:2 (unknown name)");
}

fn caps() -> Capabilities {
    Capabilities {
        cct_min: Kelvin::new(3200).unwrap(),
        cct_max: Kelvin::new(5000).unwrap(),
        rgb: true,
        scenes: true,
        cct_split_packets: false,
        reports_status: true,
    }
}

#[test]
fn probes_describe_and_drive_lights() {
    assert_eq!(
        discovered_line(&found("1", Some("NEEWER")), &caps()),
        "sim:1  NEEWER  -40 dBm  [CCT 3200-5000 K, RGB yes]"
    );
    let mut nameless = found("1", None);
    nameless.rssi = None;
    assert_eq!(discovered_line(&nameless, &caps()), "sim:1  <unknown>  n/a");
    assert_eq!((blink_mode(0), blink_mode(1), blink_mode(2)), (Mode::On, Mode::Off, Mode::On));
    let cct = |temp| Mode::Cct {
        temp: Kelvin::new(temp).unwrap(),
        bri: Percent::new(50).unwrap(),
    };
    assert!(check_writes(1).is_ok());
    assert_eq!(check_writes(0).unwrap_err(), "--writes must be greater than zero");
    assert_eq!(bench_mode(0, &caps()), cct(3200));
    assert_eq!(bench_mode(1, &caps()), cct(5000));
}

#[test]
fn timings_are_summed_up() {
    assert_eq!(sort(&[3, 1, 2, 1]), [1, 1, 2, 3]);
    let timings: Vec<u64> = (1..=100).rev().collect();
    let summary = stats(&timings);
    assert_eq!((summary.min, summary.max), (1, 100));
    assert_eq!((summary.p50, summary.p95), (51, 96));
    assert_eq!((summary.total, summary.mean), (5050, 50));
    let one = stats(&[7]);
    assert_eq!((one.min, one.p50, one.p95, one.max, one.mean), (7, 7, 7, 7, 7));
}

#[test]
fn daemon_arguments_are_read_in_order() {
    let read = |values: &[&str]| {
        let addresses = values
            .iter()
            .map(|value| *value == "127.0.0.1:1")
            .collect();
        parse(&texts(values), &addresses)
    };
    let Ok(Parsed::Run(args)) = read(&["--sim", "--bind", "127.0.0.1:1", "--log", "debug"]) else {
        panic!("arguments are valid");
    };
    assert!(args.sim && !args.disable_authentication);
    assert_eq!((args.bind, args.log.as_deref()), (Some(2), Some("debug")));
    let Ok(Parsed::Run(args)) = read(&["--disable-authentication", "--log", "--sim"]) else {
        panic!("arguments are valid");
    };
    assert!(args.disable_authentication && !args.sim);
    assert!(matches!(read(&["-h", "--nonsense"]), Ok(Parsed::Help)));
    assert!(matches!(read(&["--sim", "--help"]), Ok(Parsed::Help)));
    let fault = |values: &[&str]| read(values).unwrap_err();
    assert_eq!(fault(&["--bind"]), "--bind requires ADDR:PORT");
    assert_eq!(fault(&["--log"]), "--log requires FILTER");
    assert_eq!(
        fault(&["--bind", "here", "--nonsense"]),
        "invalid --bind value \"here\"; expected ADDR:PORT like 127.0.0.1:9090"
    );
    assert_eq!(
        fault(&["--nonsense"]),
        format!("unknown argument \"--nonsense\"\n\n{USAGE}")
    );
    assert_eq!(log_directive(Some("a"), Some("b"), Some("c")), "a");
    assert_eq!(log_directive(None, Some("b"), Some("c")), "b");
    assert_eq!(log_directive(None, None, Some("c")), "c");
    assert_eq!(log_directive(None, None, None), "info");
}

fn params(mode: &str) -> SourceParams {
    SourceParams {
        mode: mode.to_owned(),
        hue: None,
        sat: None,
        bri: Some(50),
        temp: None,
    }
}

fn hsi(hue: i64) -> SourceParams {
    SourceParams {
        hue: Some(hue),
        sat: Some(20),
        ..params("HSI")
    }
}

fn cct(temp: i64) -> SourceParams {
    SourceParams {
        temp: Some(temp),
        ..params("CCT")
    }
}

fn mode_and_notices(params: &SourceParams) -> (Result<Mode, String>, Vec<Notice>) {
    let mut notices = Vec::new();
    let mode = convert_mode("a.json", 3, params, &mut notices);
    (mode, notices)
}

#[test]
fn source_modes_are_converted() {
    let convert = mode_and_notices;
    let color = |hue| Mode::Hsi {
        hue: Hue::new(hue).unwrap(),
        sat: Percent::new(20).unwrap(),
        bri: Percent::new(50).unwrap(),
    };
    let white = |temp| Mode::Cct {
        temp: Kelvin::new(temp).unwrap(),
        bri: Percent::new(50).unwrap(),
    };
    assert_eq!(convert(&hsi(359)), (Ok(color(359)), vec![]));
    assert_eq!(convert(&hsi(360)), (Ok(color(0)), vec![]));
    assert_eq!(convert(&cct(56)), (Ok(white(5600)), vec![]));
    assert_eq!(convert(&cct(5649)), (Ok(white(5600)), vec![]));
    assert_eq!(convert(&cct(5650)), (Ok(white(5700)), vec![]));
    assert_eq!(convert(&cct(20)), (Ok(white(2500)), vec![(3, 20, 25)]));
    assert_eq!(convert(&cct(12_000)), (Ok(white(10000)), vec![(3, 120, 100)]));
    assert_eq!(
        notice_text("a.json", &(3, 120, 100)),
        "a.json: keyframe 3: clamped CCT temp 120 to 100 hundreds of Kelvin"
    );
    // The temperature is held and noticed before the brightness is found to be wrong.
    let (mode, notices) = convert(&SourceParams { bri: Some(101), ..cct(20) });
    assert!(mode.is_err());
    assert_eq!(notices, [(3, 20, 25)]);
    // Settings that fail before are not noticed, whatever their temperature.
    for params in [
        SourceParams { temp: Some(i64::MAX), ..hsi(1) },
        SourceParams { temp: Some(i64::MAX), ..params("RGB") },
        SourceParams { hue: Some(1), ..cct(i64::MAX) },
        SourceParams { bri: None, ..cct(i64::MAX) },
    ] {
        let (mode, notices) = convert(&params);
        assert!(mode.is_err() && notices.is_empty());
    }
    let fault = |params: SourceParams| convert(&params).0.unwrap_err();
    let place = "a.json: keyframe 3: ";
    assert_eq!(fault(params("RGB")), format!("{place}unexpected mode \"RGB\""));
    assert_eq!(fault(params("HSI")), format!("{place}missing hue"));
    assert_eq!(fault(params("CCT")), format!("{place}missing temp"));
    assert_eq!(
        fault(SourceParams { temp: Some(1), ..hsi(1) }),
        format!("{place}HSI has unexpected temp")
    );
    assert_eq!(
        fault(SourceParams { sat: Some(1), ..cct(50) }),
        format!("{place}CCT has unexpected hue or sat")
    );
    assert_eq!(fault(hsi(-1)), format!("{place}invalid hue value -1"));
    assert_eq!(
        fault(hsi(361)),
        format!("{place}hue value 361 is outside the allowed range 0..=359")
    );
    assert_eq!(
        fault(SourceParams { sat: Some(300), ..hsi(1) }),
        format!("{place}invalid sat value 300")
    );
    assert_eq!(
        fault(SourceParams { bri: Some(101), ..cct(50) }),
        format!("{place}percent value 101 is outside the allowed range 0..=100")
    );
    let detail = "here".to_owned();
    assert_eq!(required(Some(4), "bri", &detail), Ok(4));
    assert_eq!(integer(70_000, 65_535, "hue", &detail).unwrap_err(), "here: invalid hue value 70000");
}

fn source(name: &str, lights: Vec<(&str, SourceParams)>) -> SourceAnimation {
    SourceAnimation {
        name: name.to_owned(),
        description: "d".to_owned(),
        looping: true,
        keyframes: vec![
            SourceKeyframe {
                hold_ms: 100,
                fade_ms: 0,
                lights: lights
                    .into_iter()
                    .map(|(key, params)| (key.to_owned(), params))
                    .collect(),
            },
            SourceKeyframe {
                hold_ms: 100,
                fade_ms: 400,
                lights: vec![("2".to_owned(), cct(2))],
            },
        ],
    }
}

#[test]
fn source_animations_are_converted_and_checked() {
    let slot = |n| AnimTarget::Slot(SlotNumber::new(n).unwrap());
    let lights = vec![("1", hsi(1)), ("+1", hsi(2)), ("3", cct(50))];
    let mut notices = Vec::new();
    let anim = convert_animation("a.json", &source("Warm & Cozy_2", lights), &mut notices).unwrap();
    assert_eq!(anim.id.as_str(), "warm-cozy-2");
    assert_eq!((anim.slot_count, anim.loop_default), (3, true));
    let modes = anim.keyframes[0].lights.as_slice();
    assert_eq!((modes.len(), modes[0].0, modes[1].0), (2, slot(1), slot(3)));
    assert!(matches!(modes[0].1, Mode::Hsi { hue, .. } if hue.get() == 2));
    assert_eq!(notices, [(1, 2, 25)]);
    assert!(is_countable(&anim));
    assert_eq!(frame_count(&anim), 3);
    assert_eq!(check_frames("a.json", &anim), Ok(3));
    let mut blank = anim;
    blank.keyframes.clear();
    assert_eq!(
        check_frames("a.json", &blank).unwrap_err(),
        "a.json: converted animation scheduled no frames"
    );
    // What was noticed before a fault is kept.
    let mut notices = vec![(9, 1, 25)];
    let mut faulty = source("a", vec![("1", cct(3)), ("2", hsi(400)), ("3", cct(4))]);
    assert!(convert_animation("a.json", &faulty, &mut notices).is_err());
    assert_eq!(notices, [(9, 1, 25), (0, 3, 25)]);
    faulty.name = "-".to_owned();
    assert!(convert_animation("a.json", &faulty, &mut notices).is_err());
    assert_eq!(notices.len(), 2);
    let fault =
        |anim: SourceAnimation| convert_animation("a.json", &anim, &mut Vec::new()).unwrap_err();
    assert_eq!(fault(source("--", vec![])), "a.json: invalid animation id: ");
    assert_eq!(
        fault(source("a", vec![("*", hsi(1)), ("1", hsi(1))])),
        "a.json: keyframe 0 mixes all and slot targets"
    );
    assert_eq!(
        fault(source("a", vec![("x", hsi(1))])),
        "a.json: unexpected light key \"x\""
    );
    assert_eq!(
        fault(source("a", vec![("5", hsi(1))])),
        "a.json: unexpected light key \"5\"; expected \"*\" or \"1\"..\"4\""
    );
    let mut long = source("a", vec![("1", hsi(1))]);
    long.keyframes[1].hold_ms = 600_001;
    assert_eq!(
        fault(long),
        "a.json: converted animation is invalid: keyframe 1 hold_ms exceeds 600000"
    );
    assert_eq!(convert_target("p", &"*".to_owned()), Ok(AnimTarget::All));
    assert_eq!(slug("  Ré-d  _ 3"), "r-d-3");
    let mut seen = Vec::new();
    assert!(claim_slug(&mut seen, &"a".to_owned(), "a.json").is_ok());
    assert!(claim_slug(&mut seen, &"b".to_owned(), "b.json").is_ok());
    assert_eq!(
        claim_slug(&mut seen, &"a".to_owned(), "c.json").unwrap_err(),
        "slug collision \"a\": a.json and c.json"
    );
}

fn raw(patterns: &[&str], cct_min: Option<u16>, cct_max: Option<u16>) -> RawModel {
    RawModel {
        patterns: texts(patterns),
        cct_min,
        cct_max,
        rgb: None,
        scenes: None,
        cct_split_packets: None,
        reports_status: None,
    }
}

fn table(models: Vec<RawModel>) -> Result<ModelTable, ModelTableError> {
    ModelTable::from_raw(&RawTable {
        defaults: RawCaps {
            cct_min: 3200,
            cct_max: 5600,
            rgb: false,
            scenes: true,
            cct_split_packets: false,
            reports_status: true,
        },
        models,
    })
}

#[test]
fn names_are_normalized() {
    assert_eq!(normalize("NEEWER-rgb660 Pro"), "NEEWERRGB660PRO");
    assert_eq!(normalize("- Straße -"), "STRASSE");
    assert_eq!(normalize(""), "");
}

#[test]
fn the_longest_pattern_wins() {
    let table = table(vec![
        raw(&["RGB660", "AB"], Some(2500), None),
        raw(&["RGB660 PRO", "x-y"], Some(2600), Some(10000)),
        raw(&["CD"], Some(2700), None),
    ])
    .unwrap();
    let min = |name: &str| table.resolve(name).cct_min.get();
    assert_eq!(min("NEEWER-RGB660"), 2500);
    assert_eq!(min("neewer rgb-660 pro"), 2600);
    assert_eq!(min("Xy"), 2600);
    assert_eq!(min("NEEWER-OTHER"), 3200);
    // Of equally long patterns the last one in the database counts.
    assert_eq!(min("AB-CD"), 2700);
    assert_eq!(table.resolve("RGB660 PRO").cct_max.get(), 10000);
    assert_eq!(table.resolve("RGB660").cct_max.get(), 5600);
    assert!(table.resolve("RGB660").scenes);
}

#[test]
fn faulty_databases_are_refused() {
    let fault = |models| table(models).unwrap_err().message();
    assert_eq!(fault(vec![raw(&[], None, None)]), "model entry has no patterns");
    assert_eq!(
        fault(vec![raw(&["a b"], None, None), raw(&["c", "A-B"], None, None)]),
        "duplicate normalized model pattern \"AB\""
    );
    assert_eq!(
        fault(vec![raw(&["a", "b"], Some(5700), None)]),
        "minimum CCT exceeds maximum CCT in a/b"
    );
    assert_eq!(
        fault(vec![raw(&["a"], Some(2400), None)]),
        "invalid cct_min value 2400 in a: kelvin value 2400 is outside the allowed range 2500..=10000"
    );
    let broken = ModelTable::from_raw(&RawTable {
        defaults: RawCaps {
            cct_min: 3200,
            cct_max: 10001,
            rgb: false,
            scenes: true,
            cct_split_packets: false,
            reports_status: true,
        },
        models: vec![raw(&[], None, None)],
    });
    assert!(matches!(
        broken,
        Err(ModelTableError::Kelvin { field: "cct_max", value: 10001, entry, .. }) if entry == "defaults"
    ));
}
