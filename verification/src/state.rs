//! The client-visible state of the lights and the messages about it.
use vstd::prelude::*;
use crate::animation::PlaybackStatus;
use crate::caps::Capabilities;
use crate::id::LightId;
use crate::mode::Mode;
use crate::selector::Selector;

verus! {

/// WebSocket wire protocol version supported by this crate.
pub const WS_PROTOCOL_VERSION: u32 = 1;

/// The current connection lifecycle state of a light.
#[derive(Clone, Copy, Debug, PartialEq, Eq, Structural)]
pub enum ConnState {
    Discovered,
    Connecting { attempt: u32 },
    Connected,
    Reconnecting { attempt: u32 },
    Lost,
}

/// The complete client-visible state of one light.
#[derive(Debug, PartialEq, Eq)]
pub struct LightSnapshot {
    pub id: LightId,
    pub model: String,
    pub label: String,
    pub caps: Capabilities,
    pub conn: ConnState,
    pub rssi: Option<i16>,
    pub desired: Option<Mode>,
    pub confirmed: Option<Mode>,
    pub power: Option<bool>,
    pub last_error: Option<String>,
}

/// Copies a text that may be absent.
pub fn copy_text(text: &Option<String>) -> (r: Option<String>)
    ensures
        r == *text,
{
    match text {
        Some(text) => Some(text.clone()),
        None => None,
    }
}

/// Copies a playback status that may be absent.
pub fn copy_status(status: &Option<PlaybackStatus>) -> (r: Option<PlaybackStatus>)
    ensures
        r == *status,
{
    match status {
        Some(status) => Some(status.clone()),
        None => None,
    }
}

impl Clone for LightSnapshot {
    fn clone(&self) -> (r: Self)
        ensures
            r == *self,
    {
        LightSnapshot {
            id: self.id.clone(),
            model: self.model.clone(),
            label: self.label.clone(),
            caps: self.caps,
            conn: self.conn,
            rssi: self.rssi,
            desired: self.desired,
            confirmed: self.confirmed,
            power: self.power,
            last_error: copy_text(&self.last_error),
        }
    }
}

/// Copies lights.
pub fn copy_lights(lights: &[LightSnapshot]) -> (r: Vec<LightSnapshot>)
    ensures
        r@ == lights@,
{
    let mut r: Vec<LightSnapshot> = Vec::new();
    let mut i: usize = 0;
    while i < lights.len()
        invariant
            i <= lights@.len(),
            r@ == lights@.take(i as int),
        decreases lights.len() - i,
    {
        r.push(lights[i].clone());
        assert(lights@.take(i + 1) =~= lights@.take(i as int).push(lights@[i as int]));
        i += 1;
    }
    assert(lights@.take(i as int) =~= lights@);
    r
}

/// A consistent view of all known lights.
#[derive(Debug, PartialEq, Eq)]
pub struct WorldSnapshot {
    pub seq: u64,
    pub lights: Vec<LightSnapshot>,
    pub playback: Option<PlaybackStatus>,
}

/// What a view of all known lights shows.
#[verifier::ext_equal]
pub struct World {
    pub seq: int,
    pub lights: Seq<LightSnapshot>,
    pub playback: Option<PlaybackStatus>,
}

impl View for WorldSnapshot {
    type V = World;

    open spec fn view(&self) -> World {
        World { seq: self.seq as int, lights: self.lights@, playback: self.playback }
    }
}

impl Clone for WorldSnapshot {
    fn clone(&self) -> (r: Self)
        ensures
            r@ == self@,
    {
        WorldSnapshot {
            seq: self.seq,
            lights: copy_lights(self.lights.as_slice()),
            playback: copy_status(&self.playback),
        }
    }
}

/// A coarse world-state change.
#[derive(Debug, PartialEq, Eq)]
pub enum Event {
    Light { light: LightSnapshot },
    LightRemoved { id: LightId },
    Playback { playback: Option<PlaybackStatus> },
}

impl Clone for Event {
    fn clone(&self) -> (r: Self)
        ensures
            r == *self,
    {
        match self {
            Event::Light { light } => Event::Light { light: light.clone() },
            Event::LightRemoved { id } => Event::LightRemoved { id: id.clone() },
            Event::Playback { playback } => Event::Playback { playback: copy_status(playback) },
        }
    }
}

/// An event with its monotonically increasing world sequence.
#[derive(Debug, PartialEq, Eq)]
pub struct SeqEvent {
    pub seq: u64,
    pub event: Event,
}

impl Clone for SeqEvent {
    fn clone(&self) -> (r: Self)
        ensures
            r == *self,
    {
        SeqEvent { seq: self.seq, event: self.event.clone() }
    }
}

/// Why a light command was intentionally not written.
#[derive(Clone, Copy, Debug, PartialEq, Eq, Structural)]
pub enum SkipReason {
    NotConnected,
    UnsupportedMode,
}

/// The result of applying one command to one light.
#[derive(Debug, PartialEq, Eq)]
pub enum PerLightResult {
    Applied { id: LightId, mode: Mode },
    Coalesced { id: LightId },
    Adapted { id: LightId, requested: Mode, applied: Mode },
    Skipped { id: LightId, reason: SkipReason },
    Failed { id: LightId, error: String },
}

impl Clone for PerLightResult {
    fn clone(&self) -> (r: Self)
        ensures
            r == *self,
    {
        match self {
            PerLightResult::Applied { id, mode } => PerLightResult::Applied {
                id: id.clone(),
                mode: *mode,
            },
            PerLightResult::Coalesced { id } => PerLightResult::Coalesced { id: id.clone() },
            PerLightResult::Adapted { id, requested, applied } => PerLightResult::Adapted {
                id: id.clone(),
                requested: *requested,
                applied: *applied,
            },
            PerLightResult::Skipped { id, reason } => PerLightResult::Skipped {
                id: id.clone(),
                reason: *reason,
            },
            PerLightResult::Failed { id, error } => PerLightResult::Failed {
                id: id.clone(),
                error: error.clone(),
            },
        }
    }
}

/// A message sent from a WebSocket client to the daemon.
#[derive(Clone, Debug, PartialEq, Eq)]
pub enum ClientMsg {
    Hello { protocol_version: u32, ticket: String, last_seq: Option<u64> },
    Ping { nonce: u64 },
}

/// Why a connected WebSocket client needs a fresh snapshot.
#[derive(Clone, Copy, Debug, PartialEq, Eq, Structural)]
pub enum ResyncReason {
    ClientLagged,
    SessionChanged,
    SeqOutOfWindow,
}

/// A message sent from the daemon to a WebSocket client.
#[allow(inconsistent_fields)]
#[derive(Clone, Debug, PartialEq, Eq)]
pub enum ServerMsg {
    Welcome {
        protocol_version: u32,
        server_version: String,
        session: String,
        seq: u64,
        snapshot: Option<WorldSnapshot>,
    },
    Patch { events: Vec<SeqEvent> },
    Resync { snapshot: WorldSnapshot, reason: ResyncReason },
    Pong { nonce: u64 },
    Error { message: String },
}

/// Request body for applying a mode to selected lights.
#[derive(Clone, Debug, PartialEq, Eq)]
pub struct CommandRequest {
    pub selector: Selector,
    pub mode: Mode,
    pub wait: bool,
}

/// Results from applying a command to selected lights.
#[derive(Clone, Debug, PartialEq, Eq)]
pub struct CommandResponse {
    pub results: Vec<PerLightResult>,
}

} // verus!
