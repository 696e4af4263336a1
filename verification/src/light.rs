//! The decisions of the actor that looks after one light.
//!
//! The actor dials, waits and writes; this module decides what it dials, waits
//! for and writes, and what it reports.
use vstd::prelude::*;
use crate::caps::Capabilities;
use crate::id::LightId;
use crate::mode::Mode;
use crate::state::{ConnState, PerLightResult, SkipReason};
use crate::wire::{
    approximation, approximations_are_within_limits, band_limits, clamp_to_device, device_mode,
    device_modes_are_settled, encode, encoding, hsi_to_cct, Encoded,
};

verus! {

/// The most attempts that are made to reach a light again.
pub const MAX_ATTEMPTS: u32 = 5;

/// The milliseconds before an attempt to reach a light again: a quarter of a
/// second before the first, twice as long each time, half a minute at most.
pub open spec fn retry_wait(attempt: int) -> int
    decreases attempt,
{
    if attempt <= 1 {
        250
    } else if 2 * retry_wait(attempt - 1) > 30_000 {
        30_000
    } else {
        2 * retry_wait(attempt - 1)
    }
}

/// Later attempts never wait for less time than earlier ones, and none waits
/// longer than half a minute.
pub proof fn retry_waits_grow(earlier: int, later: int)
    requires
        earlier <= later,
    ensures
        250 <= retry_wait(earlier) <= retry_wait(later) <= 30_000,
    decreases later,
{
    if later > 1 {
        if earlier < later {
            retry_waits_grow(earlier, later - 1);
        } else {
            retry_waits_grow(earlier - 1, later - 1);
        }
    }
}

/// Returns the milliseconds to wait before an attempt to reach a light again.
pub fn retry_delay(attempt: u32) -> (r: u64)
    ensures
        r == retry_wait(attempt as int),
{
    let mut delay: u64 = 250;
    let mut i: u32 = 1;
    while i < attempt && delay < 30_000
        invariant
            1 <= i,
            attempt >= 1 ==> i <= attempt,
            attempt == 0 ==> i == 1,
            delay == retry_wait(i as int),
            250 <= delay <= 30_000,
        decreases attempt - i,
    {
        delay = if delay > 15_000 {
            30_000
        } else {
            2 * delay
        };
        i += 1;
    }
    proof {
        if i < attempt {
            retry_waits_grow(i as int, attempt as int);
        }
    }
    delay
}

/// What has to be sent to a light for a mode.
#[derive(Debug)]
pub struct Delivery {
    /// The packet that wakes the light, where it has to go first.
    pub wake: Option<Encoded>,
    /// The packets of the mode.
    pub packets: Encoded,
    /// The mode that was asked for.
    pub requested: Mode,
    /// The mode that the packets set.
    pub applied: Mode,
    /// The mode was adjusted to the light's abilities.
    pub adapted: bool,
}

/// What a request to set a mode leads to.
#[derive(Debug)]
pub enum Resolution {
    Skip(SkipReason),
    Deliver(Delivery),
}

/// The mode that a light without a given ability sets for a requested one: a
/// color becomes a temperature, and a temperature one within the limits.
pub open(crate) spec fn adapted_mode(requested: Mode, caps: Capabilities) -> Mode {
    let possible = match requested {
        Mode::Hsi { hue, bri, .. } => if caps.rgb {
            requested
        } else {
            approximation(hue, bri, caps)
        },
        _ => requested,
    };
    device_mode(possible, caps)
}

/// A light cannot play scenes and is asked for one.
pub open spec fn unsupported(requested: Mode, caps: Capabilities) -> bool {
    requested is Scene && !caps.scenes
}

/// What is next to wait for, besides requests.
#[derive(Clone, Copy, Debug, PartialEq, Eq, Structural)]
pub enum Waiting {
    /// The end of the link.
    Link,
    /// The time of the next attempt to connect.
    Retry,
    /// Nothing else.
    Nothing,
}

/// How a connection is to be made.
#[derive(Clone, Copy, Debug, PartialEq, Eq, Structural)]
pub enum Dial {
    /// There is a live link already.
    Connected,
    /// The light has to be dialled.
    Needed,
}

/// What the actor of one light knows.
#[derive(Clone, Copy, Debug, PartialEq, Eq, Structural)]
pub struct LightCore {
    pub caps: Capabilities,
    /// There is a link, live or not.
    pub linked: bool,
    /// The number of the attempt that is due next, if one is.
    pub retry: Option<u32>,
    /// The last requested mode that reached the light (or was knowingly skipped).
    /// Used to drop duplicate requests; cleared on every (re)connect so a fresh
    /// link always gets a full rewrite.
    pub last_written: Option<Mode>,
    /// True only after this link has carried a power-on (alone or prepended).
    /// Mode writes do not wake a Neewer light, and the light may be off for
    /// reasons this daemon never saw (a previous session, the physical switch),
    /// so the first lit write on every link prepends a power-on.
    pub power_known_on: bool,
    /// The earliest time of the next write, in milliseconds.
    pub next_write_at: u64,
    /// More desired modes may come.
    pub desired_open: bool,
    /// More operations may come.
    pub ops_open: bool,
}

impl LightCore {
    /// The temperature limits are in order, and attempts are counted from one to
    /// the most that are made.
    pub open spec fn wf(self) -> bool {
        &&& self.caps.ordered()
        &&& self.retry matches Some(attempt) ==> 1 <= attempt <= MAX_ATTEMPTS
    }

    /// Starts with no link and nothing known of the light.
    pub fn new(caps: Capabilities, now: u64) -> (r: Self)
        requires
            caps.ordered(),
        ensures
            r.wf(),
            r == (LightCore {
                caps,
                linked: false,
                retry: None,
                last_written: None,
                power_known_on: false,
                next_write_at: now,
                desired_open: true,
                ops_open: true,
            }),
    {
        LightCore {
            caps,
            linked: false,
            retry: None,
            last_written: None,
            power_known_on: false,
            next_write_at: now,
            desired_open: true,
            ops_open: true,
        }
    }

    /// Tells what to wait for besides requests: the end of a link where there is
    /// one, else the next attempt where one is due.
    pub fn waiting(&self) -> (r: Waiting)
        ensures
            r == if self.linked {
                Waiting::Link
            } else if self.retry is Some {
                Waiting::Retry
            } else {
                Waiting::Nothing
            },
    {
        if self.linked {
            Waiting::Link
        } else if self.retry.is_some() {
            Waiting::Retry
        } else {
            Waiting::Nothing
        }
    }

    /// Tells whether nothing can happen to the light any more.
    pub fn finished(&self) -> (r: bool)
        ensures
            r == (!self.ops_open && !self.desired_open && !self.linked && self.retry is None),
    {
        !self.ops_open && !self.desired_open && !self.linked && self.retry.is_none()
    }

    /// The mode that has to be written when a desired mode was announced: none
    /// where it is the one that was written last.
    pub fn mode_to_write(&self, desired: Option<Mode>) -> (r: Option<Mode>)
        ensures
            r == if self.last_written == desired {
                None
            } else {
                desired
            },
    {
        match desired {
            Some(mode) => match self.last_written {
                Some(written) => if written == mode {
                    None
                } else {
                    Some(mode)
                },
                None => Some(mode),
            },
            None => None,
        }
    }

    /// Takes a request to connect. A pending attempt is dropped; the light is
    /// dialled unless there is a live link.
    pub fn connect(&mut self, live: bool) -> (r: (Dial, ConnState))
        requires
            old(self).wf(),
        ensures
            final(self).wf(),
            *final(self) == (LightCore {
                retry: None,
                linked: old(self).linked && live,
                ..*old(self)
            }),
            r == if old(self).linked && live {
                (Dial::Connected, ConnState::Connected)
            } else {
                (Dial::Needed, ConnState::Connecting { attempt: 1 })
            },
    {
        self.retry = None;
        if self.linked && live {
            (Dial::Connected, ConnState::Connected)
        } else {
            self.linked = false;
            (Dial::Needed, ConnState::Connecting { attempt: 1 })
        }
    }

    /// A link was made: nothing has been written to it, and nothing is known of
    /// the light's power.
    pub fn connected(&mut self) -> (r: ConnState)
        requires
            old(self).wf(),
        ensures
            final(self).wf(),
            *final(self) == (LightCore {
                linked: true,
                last_written: None,
                power_known_on: false,
                ..*old(self)
            }),
            r == ConnState::Connected,
    {
        self.linked = true;
        self.last_written = None;
        self.power_known_on = false;
        ConnState::Connected
    }

    /// Dialling on request failed, or a link was closed: the first attempt to
    /// reach the light again is due after a while.
    pub fn lost_link(&mut self) -> (r: (ConnState, u64))
        requires
            old(self).wf(),
        ensures
            final(self).wf(),
            *final(self) == (LightCore { linked: false, retry: Some(1), ..*old(self) }),
            r == (ConnState::Reconnecting { attempt: 1 }, retry_wait(1) as u64),
    {
        self.linked = false;
        self.retry = Some(1);
        (ConnState::Reconnecting { attempt: 1 }, retry_delay(1))
    }

    /// The time of the next attempt has come.
    pub fn take_retry(&mut self) -> (r: Option<u32>)
        requires
            old(self).wf(),
        ensures
            final(self).wf(),
            *final(self) == (LightCore { retry: None, ..*old(self) }),
            r == old(self).retry,
    {
        let retry = self.retry;
        self.retry = None;
        retry
    }

    /// An attempt to reach the light again failed: another one is due, or the
    /// light is lost after the last.
    pub fn retry_failed(&mut self, attempt: u32) -> (r: (ConnState, Option<u64>))
        requires
            old(self).wf(),
            1 <= attempt,
        ensures
            final(self).wf(),
            if attempt < MAX_ATTEMPTS {
                &&& *final(self) == (LightCore { retry: Some((attempt + 1) as u32), ..*old(self) })
                &&& r == (
                    ConnState::Reconnecting { attempt: (attempt + 1) as u32 },
                    Some(retry_wait(attempt + 1) as u64),
                )
            } else {
                &&& *final(self) == *old(self)
                &&& r == (ConnState::Lost, None::<u64>)
            },
    {
        if attempt < MAX_ATTEMPTS {
            let next: u32 = attempt + 1;
            self.retry = Some(next);
            (ConnState::Reconnecting { attempt: next }, Some(retry_delay(next)))
        } else {
            (ConnState::Lost, None)
        }
    }

    /// Takes a request to disconnect. Returns whether there is a link to close.
    pub fn disconnect(&mut self) -> (r: bool)
        requires
            old(self).wf(),
        ensures
            final(self).wf(),
            *final(self) == (LightCore { retry: None, linked: false, ..*old(self) }),
            r == old(self).linked,
    {
        let linked = self.linked;
        self.retry = None;
        self.linked = false;
        linked
    }

    /// A packet may be written at a time.
    pub open spec fn may_write(self, now: u64) -> bool {
        now >= self.next_write_at
    }

    /// The time until which a write has to wait, if it has to.
    pub fn write_wait(&self, now: u64) -> (r: Option<u64>)
        ensures
            r == if self.may_write(now) {
                None
            } else {
                Some(self.next_write_at)
            },
    {
        if now < self.next_write_at {
            Some(self.next_write_at)
        } else {
            None
        }
    }

    /// A packet was handed to the link, whether it got through or not: the next one
    /// has to wait for the interval.
    pub fn wrote(&mut self, now: u64, interval: u64)
        requires
            old(self).wf(),
            now + interval <= u64::MAX,
        ensures
            final(self).wf(),
            forall|later: u64| #[trigger] final(self).may_write(later) <==> later >= now + interval,
            *final(self) == (LightCore {
                next_write_at: (now + interval) as u64,
                ..*old(self)
            }),
    {
        self.next_write_at = now + interval;
    }

    /// Decides what a request to set a mode leads to. A light without a live link
    /// is skipped; so is a light that cannot play scenes and is asked for one,
    /// and the request counts as written then.
    pub fn resolve(&mut self, requested: Mode, live: bool) -> (r: Resolution)
        requires
            old(self).wf(),
        ensures
            final(self).wf(),
            match r {
                Resolution::Skip(SkipReason::NotConnected) => {
                    &&& !(old(self).linked && live)
                    &&& *final(self) == *old(self)
                },
                Resolution::Skip(SkipReason::UnsupportedMode) => {
                    &&& old(self).linked && live
                    &&& unsupported(requested, old(self).caps)
                    &&& *final(self) == (LightCore { last_written: Some(requested), ..*old(self) })
                },
                Resolution::Deliver(delivery) => {
                    &&& old(self).linked && live
                    &&& !unsupported(requested, old(self).caps)
                    &&& *final(self) == *old(self)
                    &&& delivery.fits(requested, *old(self))
                },
            },
    {
        if !(self.linked && live) {
            return Resolution::Skip(SkipReason::NotConnected);
        }
        let scene = match requested {
            Mode::Scene { .. } => true,
            _ => false,
        };
        if scene && !self.caps.scenes {
            self.last_written = Some(requested);
            return Resolution::Skip(SkipReason::UnsupportedMode);
        }
        let (possible, converted): (Mode, bool) = match requested {
            Mode::Hsi { hue, bri, .. } => if !self.caps.rgb {
                proof {
                    band_limits(self.caps);
                }
                (hsi_to_cct(hue, bri, &self.caps), true)
            } else {
                (requested, false)
            },
            _ => (requested, false),
        };
        let (applied, clamped) = clamp_to_device(possible, &self.caps);
        let dark = applied == Mode::Off;
        let wake = if !self.power_known_on && !dark {
            Some(encode(Mode::On, &self.caps))
        } else {
            None
        };
        Resolution::Deliver(
            Delivery {
                wake,
                packets: encode(applied, &self.caps),
                requested,
                applied,
                adapted: converted || clamped,
            },
        )
    }

    /// Takes note of how far a delivery got: of the number of its packets that
    /// were written, the one that wakes the light counted first, and of the error
    /// of the next one if there was one. Returns the result of the request.
    pub fn settle(
        &mut self,
        id: &LightId,
        delivery: &Delivery,
        written: usize,
        error: Option<String>,
    ) -> (r: PerLightResult)
        requires
            old(self).wf(),
        ensures
            final(self).wf(),
            match error {
                None => {
                    &&& *final(self) == (LightCore {
                        last_written: Some(delivery.requested),
                        power_known_on: delivery.applied != Mode::Off,
                        ..*old(self)
                    })
                    &&& r == if delivery.adapted {
                        PerLightResult::Adapted {
                            id: *id,
                            requested: delivery.requested,
                            applied: delivery.applied,
                        }
                    } else {
                        PerLightResult::Applied { id: *id, mode: delivery.applied }
                    }
                },
                Some(error) => {
                    &&& *final(self) == (LightCore {
                        last_written: None,
                        power_known_on: old(self).power_known_on || (delivery.wake is Some
                            && written >= 1),
                        ..*old(self)
                    })
                    &&& r == (PerLightResult::Failed { id: *id, error })
                },
            },
    {
        match error {
            None => {
                self.last_written = Some(delivery.requested);
                self.power_known_on = delivery.applied != Mode::Off;
                if delivery.adapted {
                    PerLightResult::Adapted {
                        id: id.clone(),
                        requested: delivery.requested,
                        applied: delivery.applied,
                    }
                } else {
                    PerLightResult::Applied { id: id.clone(), mode: delivery.applied }
                }
            },
            Some(error) => {
                self.last_written = None;
                if delivery.wake.is_some() && written >= 1 {
                    self.power_known_on = true;
                }
                PerLightResult::Failed { id: id.clone(), error }
            },
        }
    }
}

impl Delivery {
    /// The delivery is the one for a requested mode: the mode adjusted to the
    /// light, in its packets, after the packet that wakes the light where its
    /// power is not known and the mode is not off.
    pub open(crate) spec fn fits(self, requested: Mode, core: LightCore) -> bool {
        let split = core.caps.cct_split_packets;
        &&& self.requested == requested
        &&& self.applied == adapted_mode(requested, core.caps)
        &&& self.adapted == (self.applied != requested)
        &&& self.packets@ == encoding(self.applied, split)
        &&& self.wake is Some == (!core.power_known_on && self.applied != Mode::Off)
        &&& self.wake matches Some(wake) ==> wake@ == encoding(Mode::On, split)
    }

    /// All packets of the delivery, in the order in which they are sent.
    pub open(crate) spec fn all(self) -> Seq<Seq<u8>> {
        match self.wake {
            Some(wake) => wake@ + self.packets@,
            None => self.packets@,
        }
    }
}

/// The mode to write after a wait: the newest one that is desired, where it has
/// changed, else the one that was to be written.
pub fn mode_after_wait(requested: Mode, changed: bool, newest: Option<Mode>) -> (r: Mode)
    ensures
        r == match newest {
            Some(mode) => if changed {
                mode
            } else {
                requested
            },
            None => requested,
        },
{
    match newest {
        Some(mode) => if changed {
            mode
        } else {
            requested
        },
        None => requested,
    }
}

/// The result of a request that was skipped.
pub fn skipped(id: &LightId, reason: SkipReason) -> (r: PerLightResult)
    ensures
        r == (PerLightResult::Skipped { id: *id, reason }),
{
    PerLightResult::Skipped { id: id.clone(), reason }
}

/// Whatever a light applies is within its abilities: no color without color, no
/// temperature beyond its limits, and nothing that it would adapt again.
pub proof fn adapted_modes_suit_the_light(requested: Mode, caps: Capabilities)
    requires
        requested.wf(),
        caps.wf(),
    ensures
        adapted_mode(requested, caps).wf(),
        !caps.rgb ==> !(adapted_mode(requested, caps) is Hsi),
        adapted_mode(requested, caps) matches Mode::Cct { temp, .. } ==> caps.cct_min@ <= temp@
            <= caps.cct_max@,
        adapted_mode(adapted_mode(requested, caps), caps) == adapted_mode(requested, caps),
{
    let possible = match requested {
        Mode::Hsi { hue, bri, .. } => if caps.rgb {
            requested
        } else {
            approximation(hue, bri, caps)
        },
        _ => requested,
    };
    match requested {
        Mode::Hsi { hue, bri, .. } => {
            approximations_are_within_limits(hue, bri, caps);
        },
        _ => {},
    }
    device_modes_are_settled(possible, caps);
}

/// The first lit write on a fresh link wakes the light first: the packets begin
/// with the power-on packet.
pub proof fn fresh_links_are_woken(core: LightCore, requested: Mode, delivery: Delivery)
    requires
        !core.power_known_on,
        delivery.fits(requested, core),
        delivery.applied != Mode::Off,
    ensures
        delivery.all().len() >= 2,
        delivery.all()[0] == encoding(Mode::On, core.caps.cct_split_packets)[0],
{
}

/// What an actor knows after a number of failed attempts to reach its light.
pub open spec fn after_failures(core: LightCore, failures: nat) -> LightCore
    decreases failures,
{
    if failures == 0 {
        LightCore { linked: false, retry: Some(1), ..core }
    } else {
        let before = after_failures(core, (failures - 1) as nat);
        match before.retry {
            Some(attempt) => LightCore {
                retry: if attempt < MAX_ATTEMPTS {
                    Some((attempt + 1) as u32)
                } else {
                    None
                },
                ..before
            },
            None => before,
        }
    }
}

/// A lost link is retried exactly five times: while fewer attempts have failed
/// another one is due, and after the fifth none is.
pub proof fn attempts_are_limited(core: LightCore, failures: nat)
    ensures
        failures < MAX_ATTEMPTS ==> after_failures(core, failures).retry == Some(
            (failures + 1) as u32,
        ),
        failures >= MAX_ATTEMPTS ==> after_failures(core, failures).retry is None,
        !after_failures(core, failures).linked,
    decreases failures,
{
    if failures > 0 {
        attempts_are_limited(core, (failures - 1) as nat);
    }
}

/// Each attempt waits twice as long as the one before it until the longest wait is
/// reached, and the first waits a quarter of a second.
pub proof fn retry_waits_double(attempt: int)
    ensures
        attempt <= 1 ==> retry_wait(attempt) == 250,
        attempt >= 1 && 2 * retry_wait(attempt) <= 30_000 ==> retry_wait(attempt + 1) == 2
            * retry_wait(attempt),
        attempt >= 1 && 2 * retry_wait(attempt) > 30_000 ==> retry_wait(attempt + 1) == 30_000,
{
}

/// A light gets what was asked of it as far as it can: what it can do is only held within
/// its limits, and of a color that it cannot do it gets the temperature that stands in for
/// it, at the same brightness. Only a scene is refused, by a light that has none.
pub proof fn lights_get_what_they_can_do(requested: Mode, caps: Capabilities)
    requires
        requested.wf(),
        caps.wf(),
    ensures
        caps.rgb || !(requested is Hsi) ==> adapted_mode(requested, caps) == device_mode(
            requested,
            caps,
        ),
        requested is On || requested is Off || requested is Scene ==> adapted_mode(requested, caps)
            == requested,
        caps.rgb && requested is Hsi ==> adapted_mode(requested, caps) == requested,
        !caps.rgb ==> (requested matches Mode::Hsi { hue, bri, .. } ==> ({
            let stand_in = approximation(hue, bri, caps);
            &&& adapted_mode(requested, caps) == device_mode(stand_in, caps)
            &&& adapted_mode(requested, caps) matches Mode::Cct { temp, bri: kept } && kept == bri
                && (stand_in->temp@ >= caps.cct_min@ ==> temp == stand_in->temp)
        })),
        unsupported(requested, caps) <==> requested is Scene && !caps.scenes,
{
    if let Mode::Hsi { hue, bri, .. } = requested {
        approximations_are_within_limits(hue, bri, caps);
    }
}

/// A light is sent exactly the packets of the mode that it can do, behind the packets that
/// turn it on where it is not known to be on and is not to be turned off. It is told that
/// the mode was adapted exactly where it is another than the requested one.
pub proof fn deliveries_are_honest(core: LightCore, requested: Mode, delivery: Delivery)
    requires
        delivery.fits(requested, core),
    ensures
        delivery.requested == requested,
        delivery.applied == adapted_mode(requested, core.caps),
        delivery.adapted <==> adapted_mode(requested, core.caps) != requested,
        core.power_known_on || adapted_mode(requested, core.caps) is Off ==> delivery.all()
            == encoding(adapted_mode(requested, core.caps), core.caps.cct_split_packets),
        !core.power_known_on && !(adapted_mode(requested, core.caps) is Off) ==> delivery.all()
            == encoding(Mode::On, core.caps.cct_split_packets) + encoding(
            adapted_mode(requested, core.caps),
            core.caps.cct_split_packets,
        ),
{
}

/// After a lost link five attempts to connect are made, one after another, and no more.
pub proof fn five_attempts_are_made(core: LightCore, failures: nat)
    ensures
        failures < 5 ==> after_failures(core, failures).retry == Some((failures + 1) as u32),
        failures >= 5 ==> after_failures(core, failures).retry is None,
{
    attempts_are_limited(core, failures);
}

} // verus!
