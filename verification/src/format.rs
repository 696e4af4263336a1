//! How lights, modes and connections are put into words.
use vstd::prelude::*;
use vstd::string::StringExecFns;
use crate::mode::Mode;
use crate::playback::current_mode;
use crate::state::{ConnState, LightSnapshot};
use crate::text::{decimal, owned, push_decimal, push_signed_decimal, signed_decimal};

verus! {

/// A mode in a few words.
pub open spec fn mode_words(mode: Mode) -> Seq<char> {
    match mode {
        Mode::Off => "Power off"@,
        Mode::On => "Power on"@,
        Mode::Cct { temp, bri } => decimal(temp@ as nat) + " K · "@ + decimal(bri@ as nat) + "%"@,
        Mode::Hsi { hue, sat, bri } => decimal(hue@ as nat) + "° · S "@ + decimal(sat@ as nat)
            + "% · B "@ + decimal(bri@ as nat) + "%"@,
        Mode::Scene { scene, bri } => "Scene "@ + decimal(scene@ as nat) + " · "@ + decimal(
            bri@ as nat,
        ) + "%"@,
    }
}

/// Formats a light mode for compact status and preset displays.
pub fn mode_summary(mode: Mode) -> (r: String)
    ensures
        r@ == mode_words(mode),
{
    match mode {
        Mode::Off => owned("Power off"),
        Mode::On => owned("Power on"),
        Mode::Cct { temp, bri } => {
            let mut text = String::new();
            push_decimal(&mut text, temp.get() as u64);
            assert(text@ =~= decimal(temp@ as nat));
            text.append(" K · ");
            push_decimal(&mut text, bri.get() as u64);
            text.append("%");
            text
        },
        Mode::Hsi { hue, sat, bri } => {
            let mut text = String::new();
            push_decimal(&mut text, hue.get() as u64);
            assert(text@ =~= decimal(hue@ as nat));
            text.append("° · S ");
            push_decimal(&mut text, sat.get() as u64);
            text.append("% · B ");
            push_decimal(&mut text, bri.get() as u64);
            text.append("%");
            text
        },
        Mode::Scene { scene, bri } => {
            let mut text = owned("Scene ");
            push_decimal(&mut text, scene.get() as u64);
            text.append(" · ");
            push_decimal(&mut text, bri.get() as u64);
            text.append("%");
            text
        },
    }
}

/// What a light shows of its mode: the mode that it confirmed, else the one that
/// is desired of it, which is still pending, else its power.
pub open spec fn shown_mode(light: LightSnapshot) -> (Seq<char>, bool) {
    match current_mode(light) {
        Some(mode) => (mode_words(mode), light.confirmed is None),
        None => (
            match light.power {
                Some(true) => "On"@,
                Some(false) => "Off"@,
                None => "Unknown"@,
            },
            false,
        ),
    }
}

/// Describes a light's mode, and tells whether it is still pending.
pub fn light_summary(light: &LightSnapshot) -> (r: (String, bool))
    ensures
        (r.0@, r.1) == shown_mode(*light),
{
    match light.confirmed {
        Some(mode) => (mode_summary(mode), false),
        None => match light.desired {
            Some(mode) => (mode_summary(mode), true),
            None => match light.power {
                Some(power) => if power {
                    (owned("On"), false)
                } else {
                    (owned("Off"), false)
                },
                None => (owned("Unknown"), false),
            },
        },
    }
}

/// The class and the words for the state of a connection.
pub open spec fn connection_words(conn: ConnState) -> (Seq<char>, Seq<char>) {
    match conn {
        ConnState::Discovered => ("discovered"@, "Discovered"@),
        ConnState::Connecting { attempt } => (
            "reconnecting"@,
            "Connecting "@ + decimal(attempt as nat),
        ),
        ConnState::Connected => ("connected"@, "Connected"@),
        ConnState::Reconnecting { attempt } => (
            "reconnecting"@,
            "Reconnecting "@ + decimal(attempt as nat),
        ),
        ConnState::Lost => ("lost"@, "Lost"@),
    }
}

/// Describes the state of a connection, after the class it is shown in.
pub fn connection_summary(connection: &ConnState) -> (r: (&'static str, String))
    ensures
        (r.0@, r.1@) == connection_words(*connection),
{
    match connection {
        ConnState::Discovered => ("discovered", owned("Discovered")),
        ConnState::Connecting { attempt } => {
            let mut text = owned("Connecting ");
            push_decimal(&mut text, *attempt as u64);
            ("reconnecting", text)
        },
        ConnState::Connected => ("connected", owned("Connected")),
        ConnState::Reconnecting { attempt } => {
            let mut text = owned("Reconnecting ");
            push_decimal(&mut text, *attempt as u64);
            ("reconnecting", text)
        },
        ConnState::Lost => ("lost", owned("Lost")),
    }
}

/// Describes a signal strength.
pub fn rssi_text(rssi: Option<i16>) -> (r: String)
    ensures
        r@ == match rssi {
            Some(strength) => signed_decimal(strength as int) + " dBm"@,
            None => "-"@,
        },
{
    match rssi {
        Some(strength) => {
            let mut text = String::new();
            push_signed_decimal(&mut text, strength as i64);
            assert(text@ =~= signed_decimal(strength as int));
            text.append(" dBm");
            text
        },
        None => owned("-"),
    }
}

/// A number with a suffix.
pub fn with_suffix(value: i32, suffix: &str) -> (r: String)
    ensures
        r@ == signed_decimal(value as int) + suffix@,
{
    let mut text = String::new();
    push_signed_decimal(&mut text, value as i64);
    assert(text@ =~= signed_decimal(value as int));
    text.append(suffix);
    text
}

/// A light shows the mode that it confirmed; the one wished for where it confirmed none, as
/// one that is not sure; and else its power.
pub proof fn lights_show_what_they_confirmed(light: LightSnapshot, mode: Mode)
    ensures
        light.confirmed == Some(mode) ==> shown_mode(light) == (mode_words(mode), false),
        light.confirmed is None && light.desired == Some(mode) ==> shown_mode(light) == (
            mode_words(mode),
            true,
        ),
        light.confirmed is None && light.desired is None ==> !shown_mode(light).1 && (light.power
            == Some(true) ==> shown_mode(light).0 == "On"@) && (light.power == Some(false)
            ==> shown_mode(light).0 == "Off"@) && (light.power is None ==> shown_mode(light).0
            == "Unknown"@),
{
}

} // verus!
