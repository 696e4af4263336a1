use lumiere::caps::Capabilities;
use lumiere::mode::{Hue, Kelvin, Mode, Percent, SceneId};
use lumiere::wire::{
    checksum, clamp_to_device, decode, encode, hsi_to_cct, packet, DecodeError, Decoded,
};

fn caps(split: bool) -> Capabilities {
    Capabilities {
        cct_min: Kelvin::new(2500).unwrap(),
        cct_max: Kelvin::new(10000).unwrap(),
        rgb: true,
        scenes: true,
        cct_split_packets: split,
        reports_status: true,
    }
}

fn cct(temp: u16, bri: u8) -> Mode {
    Mode::Cct {
        temp: Kelvin::new(temp).unwrap(),
        bri: Percent::new(bri).unwrap(),
    }
}

fn bytes(mode: Mode, split: bool) -> Vec<Vec<u8>> {
    encode(mode, &caps(split))
        .packets()
        .iter()
        .map(|packet| packet.as_bytes().to_vec())
        .collect()
}

#[test]
fn hsi_to_cct_matches_the_reference_band_math() {
    // Values for the GL1 PRO range (2900 to 7000 K); temps in hundreds of kelvin.
    let mut caps = caps(false);
    caps.cct_min = Kelvin::new(2900).unwrap();
    caps.cct_max = Kelvin::new(7000).unwrap();
    let oracle = [
        (0, 29),
        (30, 29),
        (60, 29),
        (61, 29),
        (90, 35),
        (120, 42),
        (150, 49),
        (151, 49),
        (200, 59),
        (250, 70),
        (251, 49),
        (280, 49),
        (299, 49),
        (300, 29),
        (330, 29),
        (359, 29),
    ];
    for (hue, temp_hk) in oracle {
        let mode = hsi_to_cct(Hue::new(hue).unwrap(), Percent::new(50).unwrap(), &caps);
        assert_eq!(
            mode,
            Mode::Cct {
                temp: Kelvin::new(temp_hk * 100).unwrap(),
                bri: Percent::new(50).unwrap(),
            },
            "hue {hue}"
        );
    }
}

#[test]
fn decode_rejects_bad_envelopes() {
    assert!(matches!(
        decode(&[0x78]),
        Err(DecodeError::Truncated { .. })
    ));
    assert!(matches!(
        decode(&[0, 0x81, 1, 1, 0]),
        Err(DecodeError::WrongPrefix { .. })
    ));
    assert!(matches!(
        decode(&[0x78, 0x81, 1, 1, 0]),
        Err(DecodeError::BadChecksum { .. })
    ));
}

#[test]
fn modes_have_exact_packets() {
    assert_eq!(bytes(Mode::On, false), [[0x78, 0x81, 1, 1, 0xfb]]);
    assert_eq!(bytes(Mode::Off, true), [[0x78, 0x81, 1, 2, 0xfc]]);
    assert_eq!(bytes(cct(5600, 50), false), [[0x78, 0x87, 2, 50, 56, 0x6b]]);
    assert_eq!(
        bytes(cct(5600, 50), true),
        [[0x78, 0x82, 1, 50, 0x2d], [0x78, 0x83, 1, 56, 0x34]]
    );
    let hsi = Mode::Hsi {
        hue: Hue::new(300).unwrap(),
        sat: Percent::new(100).unwrap(),
        bri: Percent::new(80).unwrap(),
    };
    assert_eq!(bytes(hsi, false), [[0x78, 0x86, 4, 44, 1, 100, 80, 0xe3]]);
    let scene = Mode::Scene {
        scene: SceneId::new(3).unwrap(),
        bri: Percent::new(40).unwrap(),
    };
    assert_eq!(bytes(scene, false), [[0x78, 0x88, 2, 40, 3, 0x2d]]);
}

#[test]
fn encoded_packets_decode_to_their_values() {
    for bri in 0..=100_u8 {
        let sat = 100 - bri;
        let hue = u16::from(bri) * 359 / 100;
        let temp = 2500 + u16::from(bri) * 75;
        let scene = bri % 9 + 1;
        for split in [false, true] {
            let modes = [
                (Mode::On, vec![Decoded::Power(true)]),
                (Mode::Off, vec![Decoded::Power(false)]),
                (
                    cct(temp, bri),
                    if split {
                        vec![
                            Decoded::BriOnly(bri),
                            Decoded::TempOnly((temp / 100) as u8),
                        ]
                    } else {
                        vec![Decoded::Cct {
                            temp_hk: (temp / 100) as u8,
                            bri,
                        }]
                    },
                ),
                (
                    Mode::Hsi {
                        hue: Hue::new(hue).unwrap(),
                        sat: Percent::new(sat).unwrap(),
                        bri: Percent::new(bri).unwrap(),
                    },
                    vec![Decoded::Hsi { hue, sat, bri }],
                ),
                (
                    Mode::Scene {
                        scene: SceneId::new(scene).unwrap(),
                        bri: Percent::new(bri).unwrap(),
                    },
                    vec![Decoded::Scene { scene, bri }],
                ),
            ];
            for (mode, expected) in modes {
                let packets = bytes(mode, split);
                for packet in &packets {
                    let (last, rest) = packet.split_last().unwrap();
                    assert_eq!(*last, checksum(rest));
                }
                let decoded: Vec<_> = packets.iter().map(|p| decode(p).unwrap()).collect();
                assert_eq!(decoded, expected);
            }
        }
    }
}

#[test]
fn every_decode_error_is_told_apart_and_described() {
    let sealed = |body: &[u8]| {
        let mut raw = body.to_vec();
        raw.push(checksum(body));
        decode(&raw).unwrap_err()
    };
    let cases = [
        (
            decode(&[0x78, 0x81, 1]).unwrap_err(),
            DecodeError::Truncated { actual: 3 },
            "packet is truncated: expected at least 4 bytes, got 3",
        ),
        (
            decode(&[0x07, 0x81, 1, 1, 0]).unwrap_err(),
            DecodeError::WrongPrefix { actual: 7 },
            "invalid packet prefix 0x07",
        ),
        (
            decode(&[0x78, 0x81, 2, 1, 0]).unwrap_err(),
            DecodeError::WrongLength {
                declared: 2,
                actual: 1,
            },
            "payload length declares 2 bytes but packet contains 1",
        ),
        (
            decode(&[0x78, 0x81, 1, 1, 0]).unwrap_err(),
            DecodeError::BadChecksum {
                expected: 0xfb,
                actual: 0,
            },
            "checksum mismatch: expected 0xfb, got 0x00",
        ),
        (
            sealed(&[0x78, 0x99, 1, 1]),
            DecodeError::Unsupported {
                opcode: 0x99,
                length: 1,
            },
            "unsupported opcode 0x99 with payload length 1",
        ),
        (
            sealed(&[0x78, 0x81, 1, 3]),
            DecodeError::InvalidPower(3),
            "invalid power payload 3",
        ),
    ];
    for (actual, expected, words) in cases {
        assert_eq!(actual, expected);
        assert_eq!(actual.message(), words);
    }
    assert!(matches!(
        sealed(&[0x78, 0x81, 2, 1, 1]),
        DecodeError::Unsupported { length: 2, .. }
    ));
}

#[test]
fn framing_puts_length_and_checksum_around_a_payload() {
    let framed = packet(0x42, &[0xff, 0x01]);
    assert_eq!(framed.as_bytes(), [0x78, 0x42, 2, 0xff, 0x01, 0xbc]);
    assert_eq!(checksum(&[0xff, 0xff, 3]), 1);
    assert_eq!(checksum(&[]), 0);
}

#[test]
fn temperatures_are_held_within_the_device_limits() {
    let mut caps = caps(false);
    caps.cct_min = Kelvin::new(3200).unwrap();
    caps.cct_max = Kelvin::new(5600).unwrap();
    assert_eq!(clamp_to_device(cct(9000, 50), &caps), (cct(5600, 50), true));
    assert_eq!(clamp_to_device(cct(2500, 50), &caps), (cct(3200, 50), true));
    assert_eq!(clamp_to_device(cct(4249, 1), &caps), (cct(4200, 1), true));
    assert_eq!(clamp_to_device(cct(4250, 1), &caps), (cct(4300, 1), true));
    assert_eq!(clamp_to_device(cct(4200, 1), &caps), (cct(4200, 1), false));
    assert_eq!(clamp_to_device(Mode::Off, &caps), (Mode::Off, false));
    for temp in 2500..=10000 {
        let (once, _) = clamp_to_device(cct(temp, 5), &caps);
        assert_eq!(clamp_to_device(once, &caps), (once, false));
    }
}
