//! Converting animations from the format of other light software.
use vstd::prelude::*;
use vstd::string::StringExecFns;
use crate::anim::{
    all_frames, collect_frames, countable, ends_in_time, frame_models, plan_of,
};
use crate::animation::{
    animation_fault, any_sets_slot, ascending, highest_of_keyframes, highest_slot, highest_slot_of,
    lookup, sets_slot, AnimTarget, Animation, AnimationId, Keyframe, PlaybackOptions, Single,
    SlotNumber, TargetModes, ONE_BITS,
};
use crate::mode::{Hue, Kelvin, Mode, Percent, RangeError};
use crate::preset::{is_alphanumeric, is_gap, is_word};
use crate::slug::{is_slug, is_slug_char};
use crate::text::{
    ascii_lower, chars_of, debug_text, decimal, decimal_reads_back, is_text, lower_text, number,
    numbers_are_read_from_their_digits, owned, parse_number, push_decimal, push_signed_decimal,
    quoted, signed_decimal,
};

verus! {

/// The settings of one light, as they are written.
#[derive(Debug)]
pub struct SourceParams {
    pub mode: String,
    pub hue: Option<i64>,
    pub sat: Option<i64>,
    pub bri: Option<i64>,
    pub temp: Option<i64>,
}

/// One keyframe, as it is written: lights by their keys, in the order of the keys.
#[derive(Debug)]
pub struct SourceKeyframe {
    pub hold_ms: u32,
    pub fade_ms: u32,
    pub lights: Vec<(String, SourceParams)>,
}

/// An animation, as it is written.
#[derive(Debug)]
pub struct SourceAnimation {
    pub name: String,
    pub description: String,
    pub looping: bool,
    pub keyframes: Vec<SourceKeyframe>,
}

/// The words in front of what is said about a keyframe.
pub open spec fn detail_of(path: Seq<char>, keyframe: int) -> Seq<char> {
    path + ": keyframe "@ + decimal(keyframe as nat)
}

/// Describes where something is.
pub fn detail(path: &str, keyframe: usize) -> (r: String)
    ensures
        r@ == detail_of(path@, keyframe as int),
{
    let mut text = owned(path);
    text.append(": keyframe ");
    push_decimal(&mut text, keyframe as u64);
    text
}

/// A setting that has to be there.
pub open spec fn required_value(
    value: Option<i64>,
    field: Seq<char>,
    detail: Seq<char>,
) -> Result<i64, Seq<char>> {
    match value {
        Some(value) => Ok(value),
        None => Err(detail + ": missing "@ + field),
    }
}

/// Takes a setting that has to be there.
pub fn required(value: Option<i64>, field: &str, detail: &String) -> (r: Result<i64, String>)
    ensures
        match r {
            Ok(taken) => required_value(value, field@, detail@) == Ok::<i64, Seq<char>>(taken),
            Err(message) => required_value(value, field@, detail@) == Err::<i64, Seq<char>>(
                message@,
            ),
        },
{
    match value {
        Some(value) => Ok(value),
        None => {
            let mut text = detail.clone();
            text.append(": missing ");
            text.append(field);
            Err(text)
        },
    }
}

/// A setting that has to fit into an unsigned integer with a largest value.
pub open spec fn integer_value(
    value: i64,
    max: int,
    field: Seq<char>,
    detail: Seq<char>,
) -> Result<int, Seq<char>> {
    if 0 <= value <= max {
        Ok(value as int)
    } else {
        Err(detail + ": invalid "@ + field + " value "@ + signed_decimal(value as int))
    }
}

/// Takes a setting that has to fit into an unsigned integer with a largest value.
pub fn integer(value: i64, max: u16, field: &str, detail: &String) -> (r: Result<u16, String>)
    ensures
        match r {
            Ok(taken) => integer_value(value, max as int, field@, detail@) == Ok::<int, Seq<char>>(
                taken as int,
            ) && taken <= max,
            Err(message) => integer_value(value, max as int, field@, detail@) == Err::<
                int,
                Seq<char>,
            >(message@),
        },
{
    if 0 <= value && value <= max as i64 {
        Ok(value as u16)
    } else {
        let mut text = detail.clone();
        text.append(": invalid ");
        text.append(field);
        text.append(" value ");
        push_signed_decimal(&mut text, value);
        Err(text)
    }
}

/// A value that fits into its integer, but may be out of its own range.
pub open spec fn bounded_value(
    value: i64,
    max: int,
    field: Seq<char>,
    kind: Seq<char>,
    low: int,
    high: int,
    detail: Seq<char>,
) -> Result<int, Seq<char>> {
    match integer_value(value, max, field, detail) {
        Ok(taken) => if low <= taken <= high {
            Ok(taken)
        } else {
            Err(
                detail + ": "@ + (kind + " value "@ + signed_decimal(taken)
                    + " is outside the allowed range "@ + signed_decimal(low) + "..="@
                    + signed_decimal(high)),
            )
        },
        Err(message) => Err(message),
    }
}

fn out_of_range(detail: &String, error: &RangeError) -> (r: String)
    ensures
        r@ == detail@ + ": "@ + error.words(),
{
    let mut text = detail.clone();
    text.append(": ");
    let cause = error.message();
    text.append(cause.as_str());
    text
}

fn take_percent(value: i64, field: &str, detail: &String) -> (r: Result<Percent, String>)
    ensures
        match r {
            Ok(percent) => bounded_value(value, 255, field@, "percent"@, 0, 100, detail@) == Ok::<
                int,
                Seq<char>,
            >(percent@) && percent == Percent::of(percent@),
            Err(message) => bounded_value(value, 255, field@, "percent"@, 0, 100, detail@) == Err::<
                int,
                Seq<char>,
            >(message@),
        },
{
    match integer(value, 255, field, detail) {
        Ok(taken) => match Percent::new(taken as u8) {
            Ok(percent) => Ok(percent),
            Err(error) => Err(out_of_range(detail, &error)),
        },
        Err(message) => Err(message),
    }
}

fn take_hue(value: i64, detail: &String) -> (r: Result<Hue, String>)
    ensures
        match r {
            Ok(hue) => bounded_value(value, 65535, "hue"@, "hue"@, 0, 359, detail@) == Ok::<
                int,
                Seq<char>,
            >(hue@) && hue == Hue::of(hue@),
            Err(message) => bounded_value(value, 65535, "hue"@, "hue"@, 0, 359, detail@) == Err::<
                int,
                Seq<char>,
            >(message@),
        },
{
    match integer(value, 65535, "hue", detail) {
        Ok(taken) => match Hue::new(taken) {
            Ok(hue) => Ok(hue),
            Err(error) => Err(out_of_range(detail, &error)),
        },
        Err(message) => Err(message),
    }
}

/// A temperature in hundreds of kelvin, from one in kelvin or in hundreds.
pub open spec fn hundreds_of(raw: int) -> int {
    if raw > 100 {
        (raw + 50) / 100
    } else {
        raw
    }
}

/// A temperature in hundreds of kelvin, held within what lights can have.
pub open spec fn possible_hundreds(raw: int) -> int {
    let hundreds = hundreds_of(raw);
    if hundreds < 25 {
        25
    } else if hundreds > 100 {
        100
    } else {
        hundreds
    }
}

/// The mode that settings stand for, or what is wrong with them.
pub open(crate) spec fn mode_of(params: SourceParams, detail: Seq<char>) -> Result<
    Mode,
    Seq<char>,
> {
    if params.mode@ == "HSI"@ {
        if params.temp is Some {
            Err(detail + ": HSI has unexpected temp"@)
        } else {
            match (
                required_value(params.hue, "hue"@, detail),
                required_value(params.sat, "sat"@, detail),
                required_value(params.bri, "bri"@, detail),
            ) {
                (Ok(hue), Ok(sat), Ok(bri)) => {
                    let angle = if hue == 360 {
                        0
                    } else {
                        hue
                    };
                    match (
                        bounded_value(angle, 65535, "hue"@, "hue"@, 0, 359, detail),
                        bounded_value(sat, 255, "sat"@, "percent"@, 0, 100, detail),
                        bounded_value(bri, 255, "bri"@, "percent"@, 0, 100, detail),
                    ) {
                        (Ok(hue), Ok(sat), Ok(bri)) => Ok(
                            Mode::Hsi {
                                hue: Hue::of(hue),
                                sat: Percent::of(sat),
                                bri: Percent::of(bri),
                            },
                        ),
                        (Err(message), _, _) => Err(message),
                        (_, Err(message), _) => Err(message),
                        (_, _, Err(message)) => Err(message),
                    }
                },
                (Err(message), _, _) => Err(message),
                (_, Err(message), _) => Err(message),
                (_, _, Err(message)) => Err(message),
            }
        }
    } else if params.mode@ == "CCT"@ {
        if params.hue is Some || params.sat is Some {
            Err(detail + ": CCT has unexpected hue or sat"@)
        } else {
            match (
                required_value(params.temp, "temp"@, detail),
                required_value(params.bri, "bri"@, detail),
            ) {
                (Ok(raw), Ok(bri)) => match bounded_value(
                    bri,
                    255,
                    "bri"@,
                    "percent"@,
                    0,
                    100,
                    detail,
                ) {
                    Ok(bri) => Ok(
                        Mode::Cct {
                            temp: Kelvin::of(possible_hundreds(raw as int) * 100),
                            bri: Percent::of(bri),
                        },
                    ),
                    Err(message) => Err(message),
                },
                (Err(message), _) => Err(message),
                (_, Err(message)) => Err(message),
            }
        }
    } else {
        Err(detail + ": unexpected mode "@ + debug_text(params.mode@))
    }
}

/// The notices about temperatures that were held within their limits: the place of
/// the keyframe, the temperature and the one in its place.
pub type Notice = (usize, i64, i64);

/// The notices about the settings of one light: one where they are converted as far as
/// a temperature that has to be held within its limits.
pub open spec fn noticed(params: SourceParams, keyframe: usize) -> Seq<Notice> {
    match params.temp {
        Some(raw) => {
            let hundreds = hundreds_of(raw as int);
            let held = possible_hundreds(raw as int);
            if params.mode@ == "CCT"@ && params.hue is None && params.sat is None && params.bri
                is Some && held != hundreds {
                seq![(keyframe, hundreds as i64, held as i64)]
            } else {
                Seq::empty()
            }
        },
        None => Seq::empty(),
    }
}

/// Describes a notice in words.
pub fn notice_text(path: &str, notice: &Notice) -> (r: String)
    ensures
        r@ == detail_of(path@, notice.0 as int) + ": clamped CCT temp "@ + signed_decimal(
            notice.1 as int,
        ) + " to "@ + signed_decimal(notice.2 as int) + " hundreds of Kelvin"@,
{
    let mut text = detail(path, notice.0);
    text.append(": clamped CCT temp ");
    push_signed_decimal(&mut text, notice.1);
    text.append(" to ");
    push_signed_decimal(&mut text, notice.2);
    text.append(" hundreds of Kelvin");
    text
}

/// Converts the settings of one light. A temperature is held within what lights
/// can have; where that changes it, a notice is added to others, whether the rest of
/// the settings can be converted or not.
pub fn convert_mode(
    path: &str,
    keyframe: usize,
    params: &SourceParams,
    notices: &mut Vec<Notice>,
) -> (r: Result<Mode, String>)
    ensures
        ({
            let expected = mode_of(*params, detail_of(path@, keyframe as int));
            match r {
                Ok(mode) => expected == Ok::<Mode, Seq<char>>(mode),
                Err(message) => expected == Err::<Mode, Seq<char>>(message@),
            }
        }),
        final(notices)@ == old(notices)@ + noticed(*params, keyframe),
{
    let ghost kept = notices@;
    let place = detail(path, keyframe);
    proof {
        reveal_strlit("HSI");
        reveal_strlit("CCT");
        assert("HSI"@[0] != "CCT"@[0]);
        assert(kept + Seq::<Notice>::empty() =~= kept);
    }
    if is_text(&params.mode, "HSI") {
        if params.temp.is_some() {
            let mut text = place;
            text.append(": HSI has unexpected temp");
            return Err(text);
        }
        let hue: i64 = match required(params.hue, "hue", &place) {
            Ok(value) => value,
            Err(message) => {
                return Err(message);
            },
        };
        let sat: i64 = match required(params.sat, "sat", &place) {
            Ok(value) => value,
            Err(message) => {
                return Err(message);
            },
        };
        let bri: i64 = match required(params.bri, "bri", &place) {
            Ok(value) => value,
            Err(message) => {
                return Err(message);
            },
        };
        let angle: i64 = if hue == 360 {
            0
        } else {
            hue
        };
        let hue = match take_hue(angle, &place) {
            Ok(hue) => hue,
            Err(message) => {
                return Err(message);
            },
        };
        let sat = match take_percent(sat, "sat", &place) {
            Ok(sat) => sat,
            Err(message) => {
                return Err(message);
            },
        };
        let bri = match take_percent(bri, "bri", &place) {
            Ok(bri) => bri,
            Err(message) => {
                return Err(message);
            },
        };
        Ok(Mode::Hsi { hue, sat, bri })
    } else if is_text(&params.mode, "CCT") {
        if params.hue.is_some() || params.sat.is_some() {
            let mut text = place;
            text.append(": CCT has unexpected hue or sat");
            return Err(text);
        }
        let raw: i64 = match required(params.temp, "temp", &place) {
            Ok(value) => value,
            Err(message) => {
                return Err(message);
            },
        };
        let bri: i64 = match required(params.bri, "bri", &place) {
            Ok(value) => value,
            Err(message) => {
                return Err(message);
            },
        };
        let hundreds: i64 = if raw > 100 {
            raw / 100 + (if raw % 100 >= 50 {
                1
            } else {
                0
            })
        } else {
            raw
        };
        let held: i64 = if hundreds < 25 {
            25
        } else if hundreds > 100 {
            100
        } else {
            hundreds
        };
        assert(hundreds == hundreds_of(raw as int));
        if held != hundreds {
            notices.push((keyframe, hundreds, held));
            assert(notices@ =~= kept + noticed(*params, keyframe));
        }
        let bri = match take_percent(bri, "bri", &place) {
            Ok(bri) => bri,
            Err(message) => {
                return Err(message);
            },
        };
        Ok(Mode::Cct { temp: Kelvin(held as u16 * 100), bri })
    } else {
        let mut text = place;
        text.append(": unexpected mode ");
        let name = quoted(params.mode.as_str());
        text.append(name.as_str());
        Err(text)
    }
}

/// The target that a key stands for, or what is wrong with it.
pub open(crate) spec fn target_of(key: Seq<char>, path: Seq<char>) -> Result<
    AnimTarget,
    Seq<char>,
> {
    if key == "*"@ {
        Ok(AnimTarget::All)
    } else {
        match number(key, 10, 255) {
            Some(slot) => if 1 <= slot <= 4 {
                Ok(AnimTarget::Slot(SlotNumber::of(slot)))
            } else {
                Err(
                    path + ": unexpected light key "@ + debug_text(key)
                        + "; expected \"*\" or \"1\"..\"4\""@,
                )
            },
            None => Err(path + ": unexpected light key "@ + debug_text(key)),
        }
    }
}

/// Reads the key of a target.
pub fn convert_target(path: &str, key: &String) -> (r: Result<AnimTarget, String>)
    ensures
        match r {
            Ok(target) => target_of(key@, path@) == Ok::<AnimTarget, Seq<char>>(target),
            Err(message) => target_of(key@, path@) == Err::<AnimTarget, Seq<char>>(message@),
        },
{
    if is_text(key, "*") {
        return Ok(AnimTarget::All);
    }
    let chars = chars_of(key.as_str());
    match parse_number(chars.as_slice(), 10, 255) {
        Some(slot) => {
            if 1 <= slot && slot <= 4 {
                Ok(AnimTarget::Slot(SlotNumber(slot as u8)))
            } else {
                let mut text = owned(path);
                text.append(": unexpected light key ");
                let name = quoted(key.as_str());
                text.append(name.as_str());
                text.append("; expected \"*\" or \"1\"..\"4\"");
                Err(text)
            }
        },
        None => {
            let mut text = owned(path);
            text.append(": unexpected light key ");
            let name = quoted(key.as_str());
            text.append(name.as_str());
            Err(text)
        },
    }
}

/// What is wrong with the first faulty of the first `n` lights of a keyframe.
pub open(crate) spec fn lights_fault(
    lights: Seq<(String, SourceParams)>,
    n: int,
    path: Seq<char>,
    keyframe: int,
) -> Option<Seq<char>>
    decreases n,
{
    if n <= 0 {
        None
    } else {
        match lights_fault(lights, n - 1, path, keyframe) {
            Some(fault) => Some(fault),
            None => {
                let (key, params) = lights[n - 1];
                match target_of(key@, path) {
                    Err(message) => Some(message),
                    Ok(_) => match mode_of(params, detail_of(path, keyframe)) {
                        Err(message) => Some(message),
                        Ok(_) => None,
                    },
                }
            },
        }
    }
}

/// The mode of a target among the first `n` lights of a keyframe: that of the last
/// one with a key for it.
pub open(crate) spec fn lights_mode(
    lights: Seq<(String, SourceParams)>,
    n: int,
    path: Seq<char>,
    keyframe: int,
    target: AnimTarget,
) -> Option<Mode>
    decreases n,
{
    if n <= 0 {
        None
    } else {
        let (key, params) = lights[n - 1];
        if target_of(key@, path) == Ok::<AnimTarget, Seq<char>>(target) {
            match mode_of(params, detail_of(path, keyframe)) {
                Ok(mode) => Some(mode),
                Err(_) => None,
            }
        } else {
            lights_mode(lights, n - 1, path, keyframe, target)
        }
    }
}

/// One of the first `n` lights of a keyframe is for all lights, or for a slot.
pub open(crate) spec fn has_target(
    lights: Seq<(String, SourceParams)>,
    n: int,
    path: Seq<char>,
    slot: bool,
) -> bool {
    exists|k: int|
        0 <= k < n && (target_of((#[trigger] lights[k]).0@, path) matches Ok(target) && (target
            is Slot) == slot)
}

/// What is wrong with a keyframe.
pub open(crate) spec fn source_fault(
    source: SourceKeyframe,
    path: Seq<char>,
    keyframe: int,
) -> Option<Seq<char>> {
    let lights = source.lights@;
    let n = lights.len() as int;
    match lights_fault(lights, n, path, keyframe) {
        Some(fault) => Some(fault),
        None => if has_target(lights, n, path, false) && has_target(lights, n, path, true) {
            Some(path + ": keyframe "@ + decimal(keyframe as nat) + " mixes all and slot targets"@)
        } else {
            None
        },
    }
}

proof fn light_faults_persist(
    lights: Seq<(String, SourceParams)>,
    k: int,
    n: int,
    path: Seq<char>,
    keyframe: int,
)
    requires
        0 <= k <= n,
        lights_fault(lights, k, path, keyframe) is Some,
    ensures
        lights_fault(lights, n, path, keyframe) == lights_fault(lights, k, path, keyframe),
    decreases n - k,
{
    if k < n {
        light_faults_persist(lights, k, n - 1, path, keyframe);
    }
}

/// A keyframe is the one that its source stands for.
pub open(crate) spec fn is_converted(
    keyframe: Keyframe,
    source: SourceKeyframe,
    path: Seq<char>,
    index: int,
) -> bool {
    &&& keyframe.hold_ms == source.hold_ms
    &&& keyframe.fade_ms == source.fade_ms
    &&& forall|target: AnimTarget|
        #![trigger lookup(keyframe.lights@, target)]
        lookup(keyframe.lights@, target) == lights_mode(
            source.lights@,
            source.lights@.len() as int,
            path,
            index,
            target,
        )
}

/// The notices about the first `n` lights of a keyframe, up to the first faulty one.
pub open(crate) spec fn notices_of(
    lights: Seq<(String, SourceParams)>,
    n: int,
    path: Seq<char>,
    keyframe: usize,
) -> Seq<Notice>
    decreases n,
{
    if n <= 0 {
        Seq::empty()
    } else {
        let head = notices_of(lights, n - 1, path, keyframe);
        let (key, params) = lights[n - 1];
        if lights_fault(lights, n - 1, path, keyframe as int) is Some || target_of(
            key@,
            path,
        ) is Err {
            head
        } else {
            head + noticed(params, keyframe)
        }
    }
}

proof fn faults_end_notices(
    lights: Seq<(String, SourceParams)>,
    k: int,
    n: int,
    path: Seq<char>,
    keyframe: usize,
)
    requires
        0 <= k <= n,
        lights_fault(lights, k, path, keyframe as int) is Some,
    ensures
        notices_of(lights, n, path, keyframe) == notices_of(lights, k, path, keyframe),
    decreases n - k,
{
    if k < n {
        faults_end_notices(lights, k, n - 1, path, keyframe);
        light_faults_persist(lights, k, n - 1, path, keyframe as int);
    }
}

/// The notices about the first `n` keyframes, up to the first fault.
pub open(crate) spec fn all_notices(
    sources: Seq<SourceKeyframe>,
    n: int,
    path: Seq<char>,
) -> Seq<Notice>
    decreases n,
{
    if n <= 0 {
        Seq::empty()
    } else {
        let head = all_notices(sources, n - 1, path);
        let lights = sources[n - 1].lights@;
        if sources_fault(sources, n - 1, path) is Some {
            head
        } else {
            head + notices_of(lights, lights.len() as int, path, (n - 1) as usize)
        }
    }
}

proof fn faults_end_all_notices(sources: Seq<SourceKeyframe>, k: int, n: int, path: Seq<char>)
    requires
        0 <= k <= n,
        sources_fault(sources, k, path) is Some,
    ensures
        all_notices(sources, n, path) == all_notices(sources, k, path),
    decreases n - k,
{
    if k < n {
        faults_end_all_notices(sources, k, n - 1, path);
        source_faults_persist(sources, k, n - 1, path);
    }
}

/// Converts a keyframe, and adds the notices about it to others, up to the first fault
/// where there is one.
pub fn convert_keyframe(
    path: &str,
    index: usize,
    source: &SourceKeyframe,
    notices: &mut Vec<Notice>,
) -> (r: Result<Keyframe, String>)
    ensures
        match r {
            Ok(keyframe) => {
                &&& source_fault(*source, path@, index as int) is None
                &&& is_converted(keyframe, *source, path@, index as int)
            },
            Err(message) => source_fault(*source, path@, index as int) == Some(message@),
        },
        final(notices)@ == old(notices)@ + notices_of(
            source.lights@,
            source.lights@.len() as int,
            path@,
            index,
        ),
{
    let ghost lights = source.lights@;
    let ghost total = lights.len() as int;
    let ghost kept = notices@;
    let mut modes = TargetModes::new();
    let mut all = false;
    let mut slots = false;
    let mut n: usize = 0;
    assert(kept + notices_of(lights, 0, path@, index) =~= kept);
    while n < source.lights.len()
        invariant
            n <= lights.len(),
            lights == source.lights@,
            total == lights.len(),
            notices@ == kept + notices_of(lights, n as int, path@, index),
            kept == old(notices)@,
            lights_fault(lights, n as int, path@, index as int) is None,
            forall|target: AnimTarget|
                #![trigger lookup(modes@, target)]
                lookup(modes@, target) == lights_mode(
                    lights,
                    n as int,
                    path@,
                    index as int,
                    target,
                ),
            all == has_target(lights, n as int, path@, false),
            slots == has_target(lights, n as int, path@, true),
        decreases source.lights.len() - n,
    {
        let key = &source.lights[n].0;
        let params = &source.lights[n].1;
        let ghost next = n + 1;
        proof {
            if lights_fault(lights, next, path@, index as int) is Some {
                light_faults_persist(lights, next, total, path@, index as int);
                faults_end_notices(lights, next, total, path@, index);
            }
            assert(lights[n as int].0 == *key && lights[n as int].1 == *params);
        }
        let target = match convert_target(path, key) {
            Ok(target) => target,
            Err(message) => {
                return Err(message);
            },
        };
        let converted = convert_mode(path, index, params, notices);
        assert(notices@ =~= kept + notices_of(lights, n + 1, path@, index));
        let mode = match converted {
            Ok(mode) => mode,
            Err(message) => {
                return Err(message);
            },
        };
        let slot = match target {
            AnimTarget::All => false,
            AnimTarget::Slot(_) => true,
        };
        proof {
            has_target_grows(lights, n as int, path@, false);
            has_target_grows(lights, n as int, path@, true);
        }
        if slot {
            slots = true;
        } else {
            all = true;
        }
        modes = modes.insert(target, mode);
        n += 1;
    }
    if all && slots {
        let mut text = detail(path, index);
        text.append(" mixes all and slot targets");
        return Err(text);
    }
    Ok(Keyframe { hold_ms: source.hold_ms, fade_ms: source.fade_ms, lights: modes })
}

proof fn has_target_grows(
    lights: Seq<(String, SourceParams)>,
    n: int,
    path: Seq<char>,
    slot: bool,
)
    requires
        0 <= n < lights.len(),
    ensures
        has_target(lights, n + 1, path, slot) <==> has_target(lights, n, path, slot) || (target_of(
            lights[n].0@,
            path,
        ) matches Ok(target) && (target is Slot) == slot),
{
    if has_target(lights, n + 1, path, slot) {
        let k = choose|k: int|
            0 <= k < n + 1 && (target_of((#[trigger] lights[k]).0@, path) matches Ok(target) && (
            target is Slot) == slot);
        if k < n {
            assert(has_target(lights, n, path, slot));
        }
    }
    if target_of(lights[n].0@, path) matches Ok(target) && (target is Slot) == slot {
        assert(has_target(lights, n + 1, path, slot));
    }
}

/// A character that parts words in the name of an animation.
pub open spec fn parts_words(c: char) -> bool {
    c == ' ' || c == '_' || c == '-'
}

/// Words have been parted since the last letter or digit.
pub open spec fn word_ended(name: Seq<char>) -> bool
    decreases name.len(),
{
    if name.len() == 0 || is_alphanumeric(name.last()) {
        false
    } else {
        parts_words(name.last()) || word_ended(name.drop_last())
    }
}

/// The letters and digits of a name in lower case, with a dash where words are
/// parted; other characters are left out.
pub open spec fn words_slug(name: Seq<char>) -> Seq<char>
    decreases name.len(),
{
    if name.len() == 0 {
        name
    } else {
        let before = name.drop_last();
        let head = words_slug(before);
        let c = name.last();
        if !is_alphanumeric(c) {
            head
        } else if word_ended(before) && head.len() > 0 {
            head.push('-').push(ascii_lower(c))
        } else {
            head.push(ascii_lower(c))
        }
    }
}

/// Makes a slug of the name of an animation.
pub fn slug(name: &str) -> (r: String)
    ensures
        r@ == words_slug(name@),
{
    let chars = chars_of(name);
    let mut slug = String::new();
    let mut empty = true;
    let mut separator = false;
    let mut i: usize = 0;
    assert(name@.take(0) =~= Seq::<char>::empty());
    while i < chars.len()
        invariant
            i <= chars@.len(),
            chars@ == name@,
            slug@ == words_slug(name@.take(i as int)),
            empty == (slug@.len() == 0),
            separator == word_ended(name@.take(i as int)),
        decreases chars.len() - i,
    {
        let c = chars[i];
        assert(name@.take(i + 1).drop_last() =~= name@.take(i as int));
        if ('a' <= c && c <= 'z') || ('A' <= c && c <= 'Z') || ('0' <= c && c <= '9') {
            if separator && !empty {
                slug.push('-');
            }
            slug.push(
                if 'A' <= c && c <= 'Z' {
                    (c as u8 + 32) as char
                } else {
                    c
                },
            );
            empty = false;
            separator = false;
        } else if c == ' ' || c == '_' || c == '-' {
            separator = true;
        }
        i += 1;
    }
    assert(name@.take(i as int) =~= name@);
    slug
}

/// A name has a slug that is a valid identifier exactly if it has a letter or a
/// digit.
pub proof fn slugs_of_words_are_identifiers(name: Seq<char>)
    ensures
        is_slug(words_slug(name)) <==> exists|i: int|
            0 <= i < name.len() && is_alphanumeric(#[trigger] name[i]),
{
    slug_is_made_of_slug_chars(name);
}

proof fn slug_is_made_of_slug_chars(name: Seq<char>)
    ensures
        forall|i: int|
            0 <= i < words_slug(name).len() ==> is_slug_char(
                #[trigger] words_slug(name)[i],
            ),
        words_slug(name).len() == 0 <==> forall|i: int|
            0 <= i < name.len() ==> !is_alphanumeric(#[trigger] name[i]),
    decreases name.len(),
{
    if name.len() > 0 {
        let rest = name.drop_last();
        slug_is_made_of_slug_chars(rest);
        assert forall|i: int| 0 <= i < rest.len() implies rest[i] == name[i] by {}
        if words_slug(name).len() == 0 {
            assert forall|i: int| 0 <= i < name.len() implies !is_alphanumeric(
                #[trigger] name[i],
            ) by {
                if i < rest.len() {
                    assert(!is_alphanumeric(rest[i]));
                }
            }
        } else if is_alphanumeric(name.last()) {
            assert(is_alphanumeric(name[name.len() - 1]));
        } else {
            let i = choose|i: int| 0 <= i < rest.len() && is_alphanumeric(#[trigger] rest[i]);
            assert(is_alphanumeric(name[i]));
        }
    }
}

/// What is wrong with the first faulty of the first `n` keyframes.
pub open(crate) spec fn sources_fault(
    sources: Seq<SourceKeyframe>,
    n: int,
    path: Seq<char>,
) -> Option<Seq<char>>
    decreases n,
{
    if n <= 0 {
        None
    } else {
        match sources_fault(sources, n - 1, path) {
            Some(fault) => Some(fault),
            None => source_fault(sources[n - 1], path, n - 1),
        }
    }
}

proof fn source_faults_persist(sources: Seq<SourceKeyframe>, k: int, n: int, path: Seq<char>)
    requires
        0 <= k <= n,
        sources_fault(sources, k, path) is Some,
    ensures
        sources_fault(sources, n, path) == sources_fault(sources, k, path),
    decreases n - k,
{
    if k < n {
        source_faults_persist(sources, k, n - 1, path);
    }
}

/// An animation is the one that its source stands for.
pub open(crate) spec fn stands_for(
    animation: Animation,
    source: SourceAnimation,
    path: Seq<char>,
) -> bool {
    &&& animation.id@ == words_slug(source.name@)
    &&& animation.name@ == source.name@
    &&& animation.description@ == source.description@
    &&& animation.loop_default == source.looping
    &&& animation.keyframes@.len() == source.keyframes@.len()
    &&& forall|i: int|
        0 <= i < source.keyframes@.len() ==> is_converted(
            #[trigger] animation.keyframes@[i],
            source.keyframes@[i],
            path,
            i,
        )
    &&& animation.slot_count == highest_slot_of(
        animation.keyframes@,
        animation.keyframes@.len() as int,
    )
}

fn highest_slot_in(keyframe: &Keyframe) -> (r: u8)
    ensures
        r == highest_slot(keyframe.lights@),
{
    let entries = keyframe.lights.as_slice();
    let mut highest: u8 = 0;
    let mut i: usize = 0;
    assert(entries@.take(0) =~= Seq::<(AnimTarget, Mode)>::empty());
    while i < entries.len()
        invariant
            i <= entries@.len(),
            ascending(entries@),
            highest == highest_slot(entries@.take(i as int)),
        decreases entries.len() - i,
    {
        assert(entries@.take(i + 1).drop_last() =~= entries@.take(i as int));
        let place: u8 = entries[i].0.order();
        if place > highest {
            highest = place;
        }
        i += 1;
    }
    assert(entries@.take(i as int) =~= entries@);
    highest
}

/// Converts an animation and checks the outcome. The notices about temperatures that
/// were held within their limits are added to others, up to the first fault where
/// there is one.
pub fn convert_animation(
    path: &str,
    source: &SourceAnimation,
    notices: &mut Vec<Notice>,
) -> (r: Result<Animation, String>)
    ensures
        ({
            let n = source.keyframes@.len() as int;
            let id = words_slug(source.name@);
            let fault = sources_fault(source.keyframes@, n, path@);
            match r {
                Ok(animation) => {
                    &&& is_slug(id)
                    &&& fault is None
                    &&& stands_for(animation, *source, path@)
                    &&& animation_fault(animation) is None
                },
                Err(message) => if !is_slug(id) {
                    message@ == path@ + ": "@ + ("invalid animation id: "@ + id)
                } else if fault is Some {
                    fault == Some(message@)
                } else {
                    exists|animation: Animation|
                        {
                            &&& #[trigger] stands_for(animation, *source, path@)
                            &&& animation_fault(animation) matches Some(words) && message@ == path@
                                + ": converted animation is invalid: "@ + words
                        }
                },
            }
        }),
        final(notices)@ == if is_slug(words_slug(source.name@)) {
            old(notices)@ + all_notices(
                source.keyframes@,
                source.keyframes@.len() as int,
                path@,
            )
        } else {
            old(notices)@
        },
{
    let name = slug(source.name.as_str());
    let id = match AnimationId::parse(name.as_str()) {
        Ok(id) => id,
        Err(error) => {
            let mut text = owned(path);
            text.append(": ");
            text.append(error.as_str());
            return Err(text);
        },
    };
    let ghost sources = source.keyframes@;
    let ghost total = sources.len() as int;
    let ghost kept = notices@;
    assert(kept + all_notices(sources, 0, path@) =~= kept);
    let mut keyframes: Vec<Keyframe> = Vec::new();
    let mut slot_count: u8 = 0;
    let mut i: usize = 0;
    while i < source.keyframes.len()
        invariant
            i <= sources.len(),
            sources == source.keyframes@,
            total == sources.len(),
            is_slug(words_slug(source.name@)),
            sources_fault(sources, i as int, path@) is None,
            keyframes@.len() == i,
            forall|j: int|
                0 <= j < i ==> is_converted(#[trigger] keyframes@[j], sources[j], path@, j),
            slot_count == highest_slot_of(keyframes@, i as int),
            kept == old(notices)@,
            notices@ == kept + all_notices(sources, i as int, path@),
        decreases source.keyframes.len() - i,
    {
        proof {
            if source_fault(sources[i as int], path@, i as int) is Some {
                source_faults_persist(sources, i + 1, total, path@);
                faults_end_all_notices(sources, i + 1, total, path@);
            }
        }
        let converted = convert_keyframe(path, i, &source.keyframes[i], notices);
        assert(notices@ =~= kept + all_notices(sources, i + 1, path@));
        let keyframe = match converted {
            Ok(keyframe) => keyframe,
            Err(message) => {
                return Err(message);
            },
        };
        let highest: u8 = highest_slot_in(&keyframe);
        if highest > slot_count {
            slot_count = highest;
        }
        let ghost before = keyframes@;
        keyframes.push(keyframe);
        proof {
            same_highest(before, keyframes@, i as int);
        }
        i += 1;
    }
    let animation = Animation {
        id,
        name: source.name.clone(),
        description: source.description.clone(),
        loop_default: source.looping,
        slot_count,
        keyframes,
    };
    assert(stands_for(animation, *source, path@));
    match animation.validate() {
        Ok(_) => Ok(animation),
        Err(error) => {
            let mut text = owned(path);
            text.append(": converted animation is invalid: ");
            text.append(error.as_str());
            Err(text)
        },
    }
}

proof fn same_highest(a: Seq<Keyframe>, b: Seq<Keyframe>, n: int)
    requires
        0 <= n <= a.len(),
        n <= b.len(),
        forall|i: int| 0 <= i < n ==> a[i] == b[i],
    ensures
        highest_slot_of(a, n) == highest_slot_of(b, n),
    decreases n,
{
    if n > 0 {
        same_highest(a, b, n - 1);
    }
}

/// The path that has a slug already, if one has.
pub open spec fn owner_of(seen: Seq<(String, String)>, slug: Seq<char>) -> Option<Seq<char>>
    decreases seen.len(),
{
    if seen.len() == 0 {
        None
    } else if seen.last().0@ == slug {
        Some(seen.last().1@)
    } else {
        owner_of(seen.drop_last(), slug)
    }
}

/// Takes note of the slug of a path. Fails where another path has it.
pub fn claim_slug(seen: &mut Vec<(String, String)>, slug: &String, path: &str) -> (r: Result<
    (),
    String,
>)
    ensures
        match owner_of(old(seen)@, slug@) {
            Some(owner) => {
                &&& r matches Err(message) && message@ == "slug collision "@ + debug_text(slug@)
                    + ": "@ + owner + " and "@ + path@
                &&& final(seen)@ == old(seen)@
            },
            None => {
                &&& r is Ok
                &&& final(seen)@.len() == old(seen)@.len() + 1
                &&& final(seen)@.drop_last() == old(seen)@
                &&& final(seen)@.last().0@ == slug@
                &&& final(seen)@.last().1@ == path@
            },
        },
{
    let ghost before = seen@;
    let mut n: usize = seen.len();
    assert(before.take(n as int) =~= before);
    while n > 0
        invariant
            n <= seen@.len(),
            seen@ == before,
            before == old(seen)@,
            owner_of(before, slug@) == owner_of(before.take(n as int), slug@),
        decreases n,
    {
        assert(before.take(n as int).drop_last() =~= before.take(n - 1));
        if seen[n - 1].0 == *slug {
            let mut text = owned("slug collision ");
            let name = quoted(slug.as_str());
            text.append(name.as_str());
            text.append(": ");
            text.append(seen[n - 1].1.as_str());
            text.append(" and ");
            text.append(path);
            return Err(text);
        }
        n -= 1;
    }
    seen.push((slug.clone(), owned(path)));
    assert(seen@.drop_last() =~= before);
    Ok(())
}

/// The controls for counting the frames of an animation: one round, loop or not.
pub open spec fn counting_options(animation: Animation) -> PlaybackOptions {
    PlaybackOptions {
        speed: Single { bits: ONE_BITS },
        fps: 5,
        bri_scale: Single { bits: ONE_BITS },
        loop_override: None,
        max_loops: if animation.loop_default {
            1
        } else {
            0
        },
        revert_on_finish: true,
    }
}

fn controls(animation: &Animation) -> (r: PlaybackOptions)
    ensures
        r == counting_options(*animation),
        r.wf(),
{
    PlaybackOptions {
        max_loops: if animation.loop_default {
            1
        } else {
            0
        },
        ..PlaybackOptions::default()
    }
}

/// Tells whether the time of one round of an animation can be counted.
pub fn is_countable(animation: &Animation) -> (r: bool)
    ensures
        r == countable(plan_of(*animation, counting_options(*animation))),
{
    ends_in_time(animation, &controls(animation))
}

/// Counts the frames of one round of an animation.
pub fn frame_count(animation: &Animation) -> (r: usize)
    requires
        countable(plan_of(*animation, counting_options(*animation))),
    ensures
        r == all_frames(plan_of(*animation, counting_options(*animation))).len(),
{
    let frames = collect_frames(animation, &controls(animation));
    assert(frame_models(frames@).len() == frames@.len());
    frames.len()
}

/// Counts the frames of one round of a converted animation. Fails where there are
/// none.
pub fn check_frames(path: &str, animation: &Animation) -> (r: Result<usize, String>)
    requires
        countable(plan_of(*animation, counting_options(*animation))),
    ensures
        ({
            let frames = all_frames(plan_of(*animation, counting_options(*animation)));
            match r {
                Ok(count) => count == frames.len() && count > 0,
                Err(message) => frames.len() == 0 && message@ == path@
                    + ": converted animation scheduled no frames"@,
            }
        }),
{
    let count: usize = frame_count(animation);
    if count == 0 {
        let mut text = owned(path);
        text.append(": converted animation scheduled no frames");
        return Err(text);
    }
    Ok(count)
}

/// Some character of a text is a space, an underscore or a dash.
pub open spec fn has_word_break(s: Seq<char>) -> bool {
    exists|i: int| 0 <= i < s.len() && (#[trigger] s[i] == ' ' || s[i] == '_' || s[i] == '-')
}

proof fn gaps_end_words(before: Seq<char>, gap: Seq<char>)
    requires
        is_gap(gap),
        before.len() > 0 ==> is_alphanumeric(before.last()),
    ensures
        words_slug(before + gap) == words_slug(before),
        word_ended(before + gap) <==> has_word_break(gap),
    decreases gap.len(),
{
    let whole = before + gap;
    if gap.len() == 0 {
        assert(whole =~= before);
    } else {
        let rest = gap.drop_last();
        let c = gap[gap.len() - 1];
        assert(whole.drop_last() =~= before + rest);
        assert(whole.last() == c);
        gaps_end_words(before, rest);
        if has_word_break(rest) {
            let i = choose|i: int|
                0 <= i < rest.len() && (#[trigger] rest[i] == ' ' || rest[i] == '_' || rest[i]
                    == '-');
            assert(gap[i] == rest[i]);
        }
        if has_word_break(gap) && !parts_words(c) {
            let i = choose|i: int|
                0 <= i < gap.len() && (#[trigger] gap[i] == ' ' || gap[i] == '_' || gap[i] == '-');
            assert(rest[i] == gap[i]);
        }
    }
}

/// The slug of an animation's name holds its words in lower case. A space, an underscore
/// or a dash between two of them makes one dash; other characters go without a trace.
pub proof fn slugs_keep_words_apart(before: Seq<char>, gap: Seq<char>, word: Seq<char>)
    requires
        before.len() > 0 ==> is_word(seq![before.last()]),
        is_gap(gap),
        is_word(word),
        word.len() > 0,
    ensures
        words_slug(Seq::<char>::empty()).len() == 0,
        words_slug(before + gap) == words_slug(before),
        words_slug(before + gap + word) == if before.len() > 0 && has_word_break(gap) {
            words_slug(before).push('-') + lower_text(word)
        } else {
            words_slug(before) + lower_text(word)
        },
    decreases word.len(),
{
    if before.len() > 0 {
        assert(seq![before.last()][0] == before.last());
        assert(is_alphanumeric(before.last()));
    }
    gaps_end_words(before, gap);
    let whole = before + gap + word;
    let head = word.drop_last();
    assert(whole.drop_last() =~= before + gap + head);
    assert(whole.last() == word[word.len() - 1]);
    assert(lower_text(word) =~= lower_text(head).push(ascii_lower(word.last())));
    if head.len() > 0 {
        slugs_keep_words_apart(before, gap, head);
        assert((before + gap + head).last() == word[word.len() - 2]);
    } else {
        assert(before + gap + head =~= before + gap);
        assert(lower_text(head) =~= Seq::<char>::empty());
    }
    if before.len() > 0 && has_word_break(gap) {
        assert(words_slug(whole) =~= words_slug(before).push('-') + lower_text(word));
    } else {
        assert(words_slug(whole) =~= words_slug(before) + lower_text(word));
    }
}

/// A temperature up to a hundred is written in hundreds of kelvin, a larger one in kelvin:
/// that is taken to the nearest hundred, the higher of two. What no light can show becomes
/// the nearest that one can.
pub proof fn temperatures_are_taken_in_hundreds(raw: int)
    ensures
        raw <= 100 ==> hundreds_of(raw) == raw,
        raw > 100 ==> raw - 50 < 100 * hundreds_of(raw) <= raw + 50,
        25 <= possible_hundreds(raw) <= 100,
        25 <= hundreds_of(raw) <= 100 ==> possible_hundreds(raw) == hundreds_of(raw),
        hundreds_of(raw) < 25 ==> possible_hundreds(raw) == 25,
        hundreds_of(raw) > 100 ==> possible_hundreds(raw) == 100,
{
}

/// The settings of a light are a color with a hue, a saturation and a brightness, and no
/// temperature; or a white with a temperature and a brightness, and no hue or saturation.
pub open spec fn is_sound_source(params: SourceParams) -> bool {
    ||| params.mode@ == "HSI"@ && params.temp is None && (params.hue matches Some(hue) && 0 <= hue
        <= 360) && (params.sat matches Some(sat) && 0 <= sat <= 100) && (params.bri matches Some(
        bri,
    ) && 0 <= bri <= 100)
    ||| params.mode@ == "CCT"@ && params.hue is None && params.sat is None && params.temp is Some
        && (params.bri matches Some(bri) && 0 <= bri <= 100)
}

/// Settings that are sound give the mode that they describe, and others give none: a hue of
/// a full circle is none, a temperature is a round hundred that a light can show, near the
/// one written.
pub proof fn source_modes_are_taken_as_written(params: SourceParams, detail: Seq<char>)
    ensures
        mode_of(params, detail) is Ok <==> is_sound_source(params),
        mode_of(params, detail) matches Ok(mode) ==> match mode {
            Mode::Hsi { hue, sat, bri } => {
                &&& params.mode@ == "HSI"@
                &&& params.hue->0 < 360 ==> hue@ == params.hue->0
                &&& params.hue->0 == 360 ==> hue@ == 0
                &&& sat@ == params.sat->0
                &&& bri@ == params.bri->0
            },
            Mode::Cct { temp, bri } => {
                let raw = params.temp->0;
                &&& params.mode@ == "CCT"@
                &&& bri@ == params.bri->0
                &&& temp@ % 100 == 0
                &&& 2500 <= temp@ <= 10000
                &&& 25 <= raw <= 100 ==> temp@ == 100 * raw
                &&& 2450 <= raw <= 10049 ==> raw - 50 < temp@ <= raw + 50
                &&& raw < 25 || 100 < raw < 2450 ==> temp@ == 2500
                &&& raw >= 10050 ==> temp@ == 10000
            },
            _ => false,
        },
{
    reveal_strlit("HSI");
    reveal_strlit("CCT");
    assert("HSI"@[0] != "CCT"@[0]);
    if params.temp is Some {
        temperatures_are_taken_in_hundreds(params.temp->0 as int);
    }
}

/// A light's key is a star, for all lights, or the number of one of four slots.
pub proof fn source_keys_name_their_targets(n: nat, key: Seq<char>, path: Seq<char>)
    ensures
        target_of("*"@, path) == Ok::<AnimTarget, Seq<char>>(AnimTarget::All),
        1 <= n <= 4 ==> (target_of(decimal(n), path) matches Ok(AnimTarget::Slot(slot)) && slot@
            == n),
        !(1 <= n <= 4) ==> target_of(decimal(n), path) is Err,
        target_of(key, path) == Ok::<AnimTarget, Seq<char>>(AnimTarget::All) ==> key == "*"@,
        target_of(key, path) is Ok && key != "*"@ ==> key.len() > 0 && (forall|i: int|
            0 <= i < key.len() ==> '0' <= #[trigger] key[i] <= '9' || (i == 0 && key[0] == '+')),
{
    reveal_strlit("*");
    numbers_are_read_from_their_digits(n, key, 255);
    decimal_reads_back(n);
    assert(decimal(n)[0] != '*');
    assert(decimal(n) != "*"@);
}

/// The settings of the last light of a target count for it.
pub proof fn the_last_light_of_a_target_counts(
    lights: Seq<(String, SourceParams)>,
    k: int,
    n: int,
    path: Seq<char>,
    keyframe: int,
    target: AnimTarget,
)
    requires
        0 <= k < n <= lights.len(),
        target_of(lights[k].0@, path) == Ok::<AnimTarget, Seq<char>>(target),
        forall|j: int|
            k < j < n ==> target_of((#[trigger] lights[j]).0@, path) != Ok::<AnimTarget, Seq<char>>(
                target,
            ),
    ensures
        mode_of(lights[k].1, detail_of(path, keyframe)) matches Ok(mode) ==> lights_mode(
            lights,
            n,
            path,
            keyframe,
            target,
        ) == Some(mode),
    decreases n,
{
    if k < n - 1 {
        assert(target_of(lights[n - 1].0@, path) != Ok::<AnimTarget, Seq<char>>(target));
        the_last_light_of_a_target_counts(lights, k, n - 1, path, keyframe, target);
    }
}

/// A target that no light has is not set.
pub proof fn unlit_targets_are_not_set(
    lights: Seq<(String, SourceParams)>,
    n: int,
    path: Seq<char>,
    keyframe: int,
    target: AnimTarget,
)
    requires
        0 <= n <= lights.len(),
        forall|j: int|
            0 <= j < n ==> target_of((#[trigger] lights[j]).0@, path) != Ok::<AnimTarget, Seq<char>>(
                target,
            ),
    ensures
        lights_mode(lights, n, path, keyframe, target) is None,
    decreases n,
{
    if n > 0 {
        assert(target_of(lights[n - 1].0@, path) != Ok::<AnimTarget, Seq<char>>(target));
        unlit_targets_are_not_set(lights, n - 1, path, keyframe, target);
    }
}

proof fn faultless_lights(
    lights: Seq<(String, SourceParams)>,
    n: int,
    path: Seq<char>,
    keyframe: int,
)
    requires
        0 <= n <= lights.len(),
    ensures
        lights_fault(lights, n, path, keyframe) is None <==> forall|k: int|
            0 <= k < n ==> target_of((#[trigger] lights[k]).0@, path) is Ok && is_sound_source(
                lights[k].1,
            ),
    decreases n,
{
    if n > 0 {
        faultless_lights(lights, n - 1, path, keyframe);
        source_modes_are_taken_as_written(lights[n - 1].1, detail_of(path, keyframe));
    }
}

/// A keyframe is taken if and only if each of its lights names a target and has sound
/// settings, and they do not set all lights and slots at once.
pub proof fn sound_source_keyframes_are_taken(
    source: SourceKeyframe,
    path: Seq<char>,
    keyframe: int,
)
    ensures
        source_fault(source, path, keyframe) is None <==> ({
            &&& forall|k: int|
                0 <= k < source.lights@.len() ==> target_of(
                    (#[trigger] source.lights@[k]).0@,
                    path,
                ) is Ok && is_sound_source(source.lights@[k].1)
            &&& forall|j: int, k: int|
                0 <= j < source.lights@.len() && 0 <= k < source.lights@.len() && (
                #[trigger] source.lights@[j]).0@ == "*"@ ==> (#[trigger] source.lights@[k]).0@
                    == "*"@
        }),
{
    let lights = source.lights@;
    let n = lights.len() as int;
    faultless_lights(lights, n, path, keyframe);
    if lights_fault(lights, n, path, keyframe) is None {
        assert forall|k: int| 0 <= k < n implies ((#[trigger] lights[k]).0@ == "*"@ <==> target_of(
            lights[k].0@,
            path,
        )->Ok_0 == AnimTarget::All) by {
            assert(target_of(lights[k].0@, path) is Ok);
        }
        if has_target(lights, n, path, false) && has_target(lights, n, path, true) {
            let j = choose|k: int|
                0 <= k < n && (target_of((#[trigger] lights[k]).0@, path) matches Ok(target) && (
                target is Slot) == false);
            let k = choose|k: int|
                0 <= k < n && (target_of((#[trigger] lights[k]).0@, path) matches Ok(target) && (
                target is Slot) == true);
            assert(lights[j].0@ == "*"@);
            assert(lights[k].0@ != "*"@);
        } else {
            assert forall|j: int, k: int|
                0 <= j < n && 0 <= k < n && (#[trigger] lights[j]).0@ == "*"@ implies (
            #[trigger] lights[k]).0@ == "*"@ by {
                assert(target_of(lights[j].0@, path) is Ok);
                assert(target_of(lights[k].0@, path) is Ok);
                assert(has_target(lights, n, path, false));
            }
        }
    }
}

/// A converted animation has as many slots as the highest slot that a keyframe sets.
pub proof fn conversions_have_the_slots_that_they_set(
    animation: Animation,
    source: SourceAnimation,
    path: Seq<char>,
    number: int,
)
    requires
        stands_for(animation, source, path),
        forall|k: int|
            0 <= k < animation.keyframes@.len() ==> (
            #[trigger] animation.keyframes@[k]).lights.wf(),
    ensures
        any_sets_slot(animation.keyframes@, number) ==> number <= animation.slot_count,
        animation.slot_count > 0 ==> any_sets_slot(
            animation.keyframes@,
            animation.slot_count as int,
        ),
{
    let keyframes = animation.keyframes@;
    let n = keyframes.len() as int;
    highest_of_keyframes(keyframes, n);
    if any_sets_slot(keyframes, number) {
        let k = choose|k: int| 0 <= k < n && sets_slot(#[trigger] keyframes[k], number);
        assert(sets_slot(keyframes[k], number));
    }
}

/// A slug belongs to the last name that was noted with it.
pub proof fn slugs_have_their_last_owner(seen: Seq<(String, String)>, k: int)
    requires
        0 <= k < seen.len(),
        forall|j: int| k < j < seen.len() ==> (#[trigger] seen[j]).0@ != seen[k].0@,
    ensures
        owner_of(seen, seen[k].0@) == Some(seen[k].1@),
    decreases seen.len(),
{
    if k < seen.len() - 1 {
        let rest = seen.drop_last();
        assert(seen[seen.len() - 1].0@ != seen[k].0@);
        assert forall|j: int| k < j < rest.len() implies (#[trigger] rest[j]).0@ != rest[k].0@ by {
            assert(seen[j].0@ != seen[k].0@);
        }
        slugs_have_their_last_owner(rest, k);
    }
}

/// A slug that was not noted belongs to no name.
pub proof fn unseen_slugs_have_no_owner(seen: Seq<(String, String)>, slug: Seq<char>)
    requires
        forall|j: int| 0 <= j < seen.len() ==> (#[trigger] seen[j]).0@ != slug,
    ensures
        owner_of(seen, slug) is None,
    decreases seen.len(),
{
    if seen.len() > 0 {
        let rest = seen.drop_last();
        assert(seen[seen.len() - 1].0@ != slug);
        assert forall|j: int| 0 <= j < rest.len() implies (#[trigger] rest[j]).0@ != slug by {
            assert(seen[j].0@ != slug);
        }
        unseen_slugs_have_no_owner(rest, slug);
    }
}

/// A temperature that no light can show is noted with what was set instead, both in
/// hundreds of kelvin; nothing else is.
pub proof fn changed_temperatures_are_noted(params: SourceParams, keyframe: usize)
    requires
        is_sound_source(params),
    ensures
        ({
            let notes = noticed(params, keyframe);
            let raw = params.temp->0;
            &&& params.temp is None ==> notes.len() == 0
            &&& params.temp is Some && (25 <= raw <= 100 || 2450 <= raw <= 10049) ==> notes.len()
                == 0
            &&& params.temp is Some && (raw < 25 || 100 < raw < 2450) ==> notes.len() == 1
                && notes[0].0 == keyframe && notes[0].2 == 25
            &&& params.temp is Some && raw >= 10050 ==> notes.len() == 1 && notes[0].0 == keyframe
                && notes[0].2 == 100
            &&& notes.len() == 1 && raw <= 100 ==> notes[0].1 == raw
            &&& notes.len() == 1 && raw > 100 ==> raw - 50 < 100 * notes[0].1 <= raw + 50
        }),
{
    reveal_strlit("HSI");
    reveal_strlit("CCT");
    assert("HSI"@[0] != "CCT"@[0]);
    if params.temp is Some {
        temperatures_are_taken_in_hundreds(params.temp->0 as int);
    }
}

/// A converted keyframe takes the time that is written, and sets each target to the mode of
/// its last light.
pub proof fn conversions_set_what_is_written(
    keyframe: Keyframe,
    source: SourceKeyframe,
    path: Seq<char>,
    index: int,
    k: int,
    target: AnimTarget,
)
    requires
        is_converted(keyframe, source, path, index),
        -1 <= k < source.lights@.len(),
        k >= 0 ==> target_of(source.lights@[k].0@, path) == Ok::<AnimTarget, Seq<char>>(target)
            && is_sound_source(source.lights@[k].1),
        forall|j: int|
            k < j < source.lights@.len() ==> target_of((#[trigger] source.lights@[j]).0@, path)
                != Ok::<AnimTarget, Seq<char>>(target),
    ensures
        keyframe.hold_ms == source.hold_ms,
        keyframe.fade_ms == source.fade_ms,
        k < 0 ==> lookup(keyframe.lights@, target) is None,
        k >= 0 ==> lookup(keyframe.lights@, target) is Some && mode_of(
            source.lights@[k].1,
            detail_of(path, index),
        ) == Ok::<Mode, Seq<char>>(lookup(keyframe.lights@, target)->0),
{
    let lights = source.lights@;
    let n = lights.len() as int;
    if k >= 0 {
        source_modes_are_taken_as_written(lights[k].1, detail_of(path, index));
        the_last_light_of_a_target_counts(lights, k, n, path, index, target);
    } else {
        unlit_targets_are_not_set(lights, n, path, index, target);
    }
}

} // verus!
