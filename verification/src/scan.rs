//! Which advertisements of a scan are worth reporting.
use vstd::prelude::*;
use crate::id::{is_mac, is_uuid, LightId};
use crate::idmap::IdMap;
use crate::text::{lower_text, owned, upper_text};
use crate::transport::ScanFilter;

verus! {

/// The characteristic that lights are written to.
pub const WRITE_UUID: &'static str = "69400002-b5a3-f393-e0a9-e50e24dcca99";

/// The characteristic on which lights notify.
pub const NOTIFY_UUID: &'static str = "69400003-b5a3-f393-e0a9-e50e24dcca99";

/// How the names of lights begin: everything else on the air (headphones, watches,
/// beacons) is noise.
pub const NAME_PREFIX: &'static str = "NEEWER";

/// The filter for lights.
pub fn light_filter() -> (r: ScanFilter)
    ensures
        r.name_prefix matches Some(prefix) && prefix@ == NAME_PREFIX@,
{
    ScanFilter { name_prefix: Some(owned(NAME_PREFIX)) }
}

/// The change of signal strength, in dBm, from which a light is reported again.
pub const RSSI_STEP: i32 = 5;

/// A light that was reported with one signal strength is worth reporting with
/// another.
pub open spec fn has_moved(previous: Option<i16>, current: Option<i16>) -> bool {
    match (previous, current) {
        (Some(a), Some(b)) => a - b >= RSSI_STEP || b - a >= RSSI_STEP,
        _ => false,
    }
}

/// An advertisement is worth reporting: it passes the filter, and the light was
/// not reported before or has moved.
pub open spec fn is_news(
    filter: ScanFilter,
    name: Option<Seq<char>>,
    previous: Option<Option<i16>>,
    rssi: Option<i16>,
) -> bool {
    filter.passes(name) && match previous {
        Some(before) => has_moved(before, rssi),
        None => true,
    }
}

/// Decides whether an advertisement is worth reporting, and takes note of the
/// signal strength of one that is.
pub fn should_report(
    filter: &ScanFilter,
    reported: &mut IdMap<Option<i16>>,
    id: &LightId,
    name: Option<&str>,
    rssi: Option<i16>,
) -> (r: bool)
    ensures
        r == is_news(
            *filter,
            match name {
                Some(name) => Some(name@),
                None => None,
            },
            old(reported).of(id@),
            rssi,
        ),
        if r {
            forall|other: Seq<char>| #[trigger]
                final(reported).of(other) == if other == id@ {
                    Some(rssi)
                } else {
                    old(reported).of(other)
                }
        } else {
            *final(reported) == *old(reported)
        },
{
    if !filter.admits(name) {
        return false;
    }
    let news = match reported.get(id) {
        Some(previous) => match (*previous, rssi) {
            (Some(a), Some(b)) => {
                let change: i32 = a as i32 - b as i32;
                change >= RSSI_STEP || -change >= RSSI_STEP
            },
            _ => false,
        },
        None => true,
    };
    if news {
        reported.insert(id.clone(), rssi);
    }
    news
}

/// The identifier of a light under which a platform knows a peripheral, if it is
/// one of the forms that platforms use.
pub open spec fn peripheral_id(raw: Seq<char>) -> Option<Seq<char>> {
    if is_mac(raw) {
        Some("mac:"@ + upper_text(raw))
    } else if is_uuid(raw) {
        Some("cb:"@ + lower_text(raw))
    } else {
        None
    }
}

/// Makes an identifier of the text under which a platform knows a peripheral.
pub fn light_id_from_peripheral(raw: &str) -> (r: Option<LightId>)
    ensures
        match r {
            Some(id) => peripheral_id(raw@) == Some(id@),
            None => peripheral_id(raw@) is None,
        },
{
    match LightId::mac(raw) {
        Ok(id) => Some(id),
        Err(_) => match LightId::corebluetooth(raw) {
            Ok(id) => Some(id),
            Err(_) => None,
        },
    }
}

/// A light is reported when it is first heard of, and again when its signal has changed by
/// five or more since it was last reported, as long as its name passes the filter; a light
/// without a signal strength, then or now, is not reported again.
pub proof fn reports_are_news(
    filter: ScanFilter,
    name: Option<Seq<char>>,
    previous: Option<i16>,
    rssi: Option<i16>,
)
    ensures
        is_news(filter, name, None, rssi) <==> filter.passes(name),
        previous is None || rssi is None ==> !is_news(filter, name, Some(previous), rssi),
        previous is Some && rssi is Some ==> (is_news(filter, name, Some(previous), rssi)
            <==> filter.passes(name) && !(-5 < previous->0 - rssi->0 < 5)),
        filter.name_prefix is None ==> filter.passes(name),
        filter.name_prefix is Some && name is None ==> !filter.passes(name),
        filter.name_prefix is Some && name is Some ==> (filter.passes(name) <==> exists|
            rest: Seq<char>,
        | name->0 == #[trigger] (filter.name_prefix->0@ + rest)),
{
    if filter.name_prefix is Some && name is Some {
        let prefix = filter.name_prefix->0@;
        let text = name->0;
        if filter.passes(name) {
            assert(text =~= prefix + text.skip(prefix.len() as int));
        }
        if exists|rest: Seq<char>| text == #[trigger] (prefix + rest) {
            let rest = choose|rest: Seq<char>| text == #[trigger] (prefix + rest);
            assert(text.take(prefix.len() as int) =~= prefix);
        }
    }
}

/// A peripheral is known by an address or by a UUID, whichever its text is, and by nothing
/// else.
pub proof fn peripherals_are_known_by_address_or_uuid(raw: Seq<char>)
    ensures
        is_mac(raw) ==> peripheral_id(raw) == Some("mac:"@ + upper_text(raw)),
        is_uuid(raw) && !is_mac(raw) ==> peripheral_id(raw) == Some("cb:"@ + lower_text(raw)),
        !is_mac(raw) && !is_uuid(raw) ==> peripheral_id(raw) is None,
{
}

} // verus!
