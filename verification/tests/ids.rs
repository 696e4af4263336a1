use lumiere::id::LightId;
use lumiere::mode::{Hue, Kelvin, Percent, SceneId};
use lumiere::preset::{preset_slug, PresetId};
use lumiere::animation::AnimationId;
use lumiere::scan::light_id_from_peripheral;
use lumiere::text::{parse_number, trim, white_space};

#[test]
fn identifiers_are_normalized() {
    let mac = LightId::mac("aa:0b:CC:dd:ee:fF").unwrap();
    assert_eq!(mac.as_str(), "mac:AA:0B:CC:DD:EE:FF");
    assert_eq!(mac.mac_octets(), Some([0xaa, 0x0b, 0xcc, 0xdd, 0xee, 0xff]));
    let cb = LightId::corebluetooth("ABCDEF01-2345-6789-ABCD-EF0123456789").unwrap();
    assert_eq!(cb.as_str(), "cb:abcdef01-2345-6789-abcd-ef0123456789");
    assert!(LightId::mac("aa:bb").is_err());
    assert!(LightId::corebluetooth("nope").is_err());
}

#[test]
fn preset_ids_follow_animation_slug_rules() {
    assert_eq!(PresetId::parse("warm-2").unwrap().as_str(), "warm-2");
    assert!(PresetId::parse("").is_err());
    assert!(PresetId::parse("Warm").is_err());
    assert!(PresetId::parse("warm light").is_err());
}

#[test]
fn invalid_identifiers_are_described() {
    assert_eq!(
        LightId::mac("aa:0b:CC:dd:ee:fg").unwrap_err().message(),
        "invalid MAC light identifier: aa:0b:CC:dd:ee:fg"
    );
    assert!(LightId::mac("aa:0b:CC:dd:ee:fff").is_err());
    assert!(LightId::mac("aa:0b:CC:dd:ee:ff:").is_err());
    assert!(LightId::mac("").is_err());
    assert_eq!(
        LightId::corebluetooth("nope").unwrap_err().message(),
        "invalid CoreBluetooth UUID light identifier: nope"
    );
    assert!(LightId::corebluetooth("ABCDEF01-2345-6789-ABCD_EF0123456789").is_err());
    assert_eq!(
        AnimationId::parse("No").unwrap_err(),
        "invalid animation id: No"
    );
    assert_eq!(PresetId::parse("No").unwrap_err(), "invalid preset id: No");
    assert_eq!(
        LightId::parse("usb:1").unwrap_err().message(),
        "invalid namespaced light identifier: usb:1"
    );
    assert_eq!(
        LightId::parse("mac:zz").unwrap_err().message(),
        "invalid MAC light identifier: zz"
    );
}

#[test]
fn complete_identifiers_are_read_back() {
    for id in [
        LightId::mac("aa:0b:CC:dd:ee:fF").unwrap(),
        LightId::corebluetooth("ABCDEF01-2345-6789-ABCD-EF0123456789").unwrap(),
        LightId::sim("key light"),
        LightId::sim(""),
    ] {
        assert_eq!(LightId::parse(id.as_str()).unwrap(), id);
    }
    assert_eq!(
        LightId::parse("mac:aa:0b:cc:dd:ee:ff").unwrap().as_str(),
        "mac:AA:0B:CC:DD:EE:FF"
    );
    assert_eq!(LightId::sim("one").mac_octets(), None);
    assert_eq!(
        LightId::verbatim("mac:1:2:3:4:5:6".to_owned()).mac_octets(),
        Some([1, 2, 3, 4, 5, 6])
    );
    assert_eq!(
        LightId::verbatim("mac:1:2:3:4:5:6:7".to_owned()).mac_octets(),
        None
    );
    assert_eq!(
        LightId::verbatim("mac:1:2:3:4:5:100".to_owned()).mac_octets(),
        None
    );
}

#[test]
fn peripherals_are_known_by_address_or_uuid() {
    assert_eq!(
        light_id_from_peripheral("aa:0b:cc:dd:ee:ff").unwrap().as_str(),
        "mac:AA:0B:CC:DD:EE:FF"
    );
    assert_eq!(
        light_id_from_peripheral("ABCDEF01-2345-6789-ABCD-EF0123456789")
            .unwrap()
            .as_str(),
        "cb:abcdef01-2345-6789-abcd-ef0123456789"
    );
    assert!(light_id_from_peripheral("hci0/dev_1").is_none());
}

#[test]
fn values_have_ranges() {
    assert_eq!(Percent::new(100).unwrap().get(), 100);
    assert_eq!(
        Percent::new(101).unwrap_err().message(),
        "percent value 101 is outside the allowed range 0..=100"
    );
    assert!(Percent::try_from(300).is_err());
    assert_eq!(Hue::new(359).unwrap().get(), 359);
    assert_eq!(
        Hue::try_from(-1).unwrap_err().message(),
        "hue value -1 is outside the allowed range 0..=359"
    );
    assert!(Hue::new(360).is_err());
    assert!(Kelvin::new(2500).is_ok() && Kelvin::new(10000).is_ok());
    assert_eq!(
        Kelvin::new(2400).unwrap_err().message(),
        "kelvin value 2400 is outside the allowed range 2500..=10000"
    );
    assert!(Kelvin::new(10001).is_err());
    assert!(SceneId::new(1).is_ok() && SceneId::new(9).is_ok());
    assert_eq!(
        SceneId::new(0).unwrap_err().message(),
        "scene value 0 is outside the allowed range 1..=9"
    );
    assert_eq!(Hue::wrapping(-10).get(), 350);
    assert_eq!(Hue::wrapping(725).get(), 5);
    assert_eq!(Hue::wrapping(i32::MIN).get(), i32::MIN.rem_euclid(360) as u16);
}

#[test]
fn preset_slugs_are_words_with_dashes() {
    assert_eq!(preset_slug("My Look"), "my-look");
    assert_eq!(preset_slug("  --Warm  &  Cozy 2!! "), "warm-cozy-2");
    assert_eq!(preset_slug("é"), "preset");
    assert_eq!(preset_slug(""), "preset");
    for name in ["a", "Straße 7", "%%", "x_y"] {
        assert!(PresetId::parse(&preset_slug(name)).is_ok());
    }
}

#[test]
fn white_space_is_that_of_unicode() {
    for n in 0..=0x10ffff_u32 {
        if let Some(c) = char::from_u32(n) {
            assert_eq!(white_space(c), c.is_whitespace(), "{n:x}");
        }
    }
    for text in ["", "  ", " a b\t", "\u{2003}x\u{a0}", "\n\n\u{3000}", "z"] {
        assert_eq!(trim(text), text.trim());
    }
}

#[test]
fn numbers_are_read_as_the_standard_library_does() {
    let chars = |text: &str| text.chars().collect::<Vec<char>>();
    for text in ["", "+", "-", "0", "+0", "007", "+255", "256", "12a", "-1", " 1", "1 ", "ff"] {
        assert_eq!(
            parse_number(&chars(text), 10, 255),
            text.parse::<u8>().ok().map(u64::from),
            "{text:?}"
        );
        assert_eq!(
            parse_number(&chars(text), 16, 255),
            u8::from_str_radix(text, 16).ok().map(u64::from),
            "{text:?}"
        );
    }
    for text in ["18446744073709551615", "18446744073709551616", "99999999999999999999999"] {
        assert_eq!(
            parse_number(&chars(text), 10, u64::MAX),
            text.parse::<u64>().ok()
        );
    }
}

#[test]
fn deserialization_rejects_invalid_ranges() {
    assert!(Hue::try_from(serde_json::from_str("360").unwrap()).is_err());
    assert!(Percent::try_from(serde_json::from_str("101").unwrap()).is_err());
    assert!(Kelvin::try_from(serde_json::from_str("2400").unwrap()).is_err());
}

#[test]
fn addresses_are_six_pairs_of_digits() {
    for text in [
        "+1:22:33:44:55:66",
        "1:22:33:44:55:66",
        "001:22:33:44:55:66",
        "-1:22:33:44:55:66",
        "g1:22:33:44:55:66",
        "11:22:33:44:55",
        "11:22:33:44:55:66:77",
        "11-22-33-44-55-66",
        "",
    ] {
        let error = LightId::mac(text).unwrap_err();
        assert_eq!(error.message(), format!("invalid MAC light identifier: {text}"));
        assert!(LightId::parse(&format!("mac:{text}")).is_err());
        assert!(light_id_from_peripheral(text).is_none());
    }
    let lower = LightId::mac("0a:bc:de:f0:12:34").unwrap();
    assert_eq!(lower, LightId::mac("0A:BC:de:f0:12:34").unwrap());
    assert_eq!(lower.mac_octets(), Some([0x0a, 0xbc, 0xde, 0xf0, 0x12, 0x34]));
    let signed = LightId::verbatim("mac:+1:22:33:44:55:66".into());
    assert_eq!(signed.mac_octets(), None);
}
