//! What a transport reports of lights and links.
use vstd::prelude::*;
use vstd::string::StringExecFns;
use crate::id::LightId;
use crate::state::copy_text;
use crate::text::{chars_of, has_prefix, owned, prefixes_come_first, starts_with};

verus! {

/// A number of seconds and nanoseconds as `Debug` prints a duration.
pub uninterp spec fn duration_words(seconds: int, nanoseconds: int) -> Seq<char>;

/// `Debug` of the `Duration` that `Duration::new` makes prints it as a number with a
/// unit. Its words are a function of the duration; which ones they are is not stated,
/// for the documentation of `Duration` does not say.
#[verifier::external_body]
fn duration_text(seconds: u64, nanoseconds: u32) -> (r: String)
    requires
        nanoseconds < 1_000_000_000,
    ensures
        r@ == duration_words(seconds as int, nanoseconds as int),
{
    format!("{:?}", std::time::Duration::new(seconds, nanoseconds))
}

/// A span of time: whole seconds, and nanoseconds that do not make another one.
#[derive(Clone, Copy, PartialEq, Eq, Structural, Debug)]
pub struct Timeout {
    pub(crate) seconds: u64,
    pub(crate) nanoseconds: u32,
}

impl Timeout {
    /// The nanoseconds are less than a second.
    #[verifier::type_invariant]
    pub open(crate) spec fn wf(self) -> bool {
        self.nanoseconds < 1_000_000_000
    }

    /// The whole seconds.
    pub open(crate) spec fn whole(self) -> int {
        self.seconds as int
    }

    /// The nanoseconds beside the whole seconds.
    pub open(crate) spec fn rest(self) -> int {
        self.nanoseconds as int
    }

    /// Makes a span of time, unless the nanoseconds make another second.
    pub fn new(seconds: u64, nanoseconds: u32) -> (r: Option<Self>)
        ensures
            match r {
                Some(timeout) => nanoseconds < 1_000_000_000 && timeout.whole() == seconds
                    && timeout.rest() == nanoseconds,
                None => nanoseconds >= 1_000_000_000,
            },
    {
        if nanoseconds < 1_000_000_000 {
            Some(Timeout { seconds, nanoseconds })
        } else {
            None
        }
    }

    /// Describes the span of time in words.
    pub fn text(self) -> (r: String)
        ensures
            r@ == duration_words(self.whole(), self.rest()),
    {
        proof {
            use_type_invariant(&self);
        }
        duration_text(self.seconds, self.nanoseconds)
    }
}

/// An error produced while discovering, connecting to, or writing to a light.
#[allow(inconsistent_fields)]
#[derive(Clone, Debug, PartialEq, Eq)]
pub enum TransportError {
    /// No usable Bluetooth adapter is available.
    AdapterUnavailable,
    /// The requested light is unknown to the transport.
    NotFound { id: LightId },
    /// A connection attempt failed.
    ConnectFailed { id: LightId },
    /// An operation did not complete within its deadline.
    TimedOut { id: LightId, timeout: Timeout },
    /// A packet could not be written or accepted by the light.
    WriteFailed { id: LightId, message: String },
    /// The link to a light is no longer connected.
    Disconnected { id: LightId },
    /// A platform Bluetooth operation failed.
    Backend { id: Option<LightId>, message: String },
}

/// The words for a light that something concerns.
pub open spec fn for_light(id: Option<LightId>) -> Seq<char> {
    match id {
        Some(id) => " for light "@ + id@,
        None => Seq::empty(),
    }
}

impl TransportError {
    /// The error in words.
    pub open spec fn words(self) -> Seq<char> {
        match self {
            TransportError::AdapterUnavailable => "Bluetooth adapter is unavailable"@,
            TransportError::NotFound { id } => "light "@ + id@ + " was not found"@,
            TransportError::ConnectFailed { id } => "failed to connect to light "@ + id@,
            TransportError::TimedOut { id, timeout } => "operation on light "@ + id@
                + " timed out after "@ + duration_words(timeout.whole(), timeout.rest()),
            TransportError::WriteFailed { id, message } => "write to light "@ + id@ + " failed: "@
                + message@,
            TransportError::Disconnected { id } => "light "@ + id@ + " is disconnected"@,
            TransportError::Backend { id, message } => "Bluetooth operation failed"@ + for_light(id)
                + ": "@ + message@,
        }
    }

    /// Describes the error in words.
    pub fn message(&self) -> (text: String)
        ensures
            text@ == self.words(),
    {
        match self {
            TransportError::AdapterUnavailable => owned("Bluetooth adapter is unavailable"),
            TransportError::NotFound { id } => {
                let mut text = owned("light ");
                text.append(id.as_str());
                text.append(" was not found");
                text
            },
            TransportError::ConnectFailed { id } => {
                let mut text = owned("failed to connect to light ");
                text.append(id.as_str());
                text
            },
            TransportError::TimedOut { id, timeout } => {
                let mut text = owned("operation on light ");
                text.append(id.as_str());
                text.append(" timed out after ");
                let timeout = timeout.text();
                text.append(timeout.as_str());
                text
            },
            TransportError::WriteFailed { id, message } => {
                let mut text = owned("write to light ");
                text.append(id.as_str());
                text.append(" failed: ");
                text.append(message.as_str());
                text
            },
            TransportError::Disconnected { id } => {
                let mut text = owned("light ");
                text.append(id.as_str());
                text.append(" is disconnected");
                text
            },
            TransportError::Backend { id, message } => {
                let mut text = owned("Bluetooth operation failed");
                match id {
                    Some(id) => {
                        let ghost head = text@;
                        text.append(" for light ");
                        text.append(id.as_str());
                        assert(text@ =~= head + (" for light "@ + id@));
                    },
                    None => {
                        assert(text@ =~= text@ + Seq::<char>::empty());
                    },
                }
                text.append(": ");
                text.append(message.as_str());
                text
            },
        }
    }
}

/// Whether the transport has an adapter ready for use.
#[derive(Debug, Clone, Copy, PartialEq, Eq, Structural)]
pub enum AdapterState {
    /// The adapter is present and ready.
    Ready,
    /// The adapter is absent or unavailable.
    Unavailable,
}

/// Constraints applied to a discovery scan.
#[derive(Clone, Debug)]
pub struct ScanFilter {
    /// Only report devices whose advertised name starts with this prefix.
    pub name_prefix: Option<String>,
}

impl Default for ScanFilter {
    fn default() -> (r: Self)
        ensures
            r.name_prefix is None,
    {
        ScanFilter { name_prefix: None }
    }
}

impl ScanFilter {
    /// A device with a name, or without one, passes the filter.
    pub open spec fn passes(self, name: Option<Seq<char>>) -> bool {
        match self.name_prefix {
            Some(prefix) => name matches Some(name) && has_prefix(name, prefix@),
            None => true,
        }
    }

    /// Tells whether a device with a name, or without one, passes the filter.
    pub fn admits(&self, name: Option<&str>) -> (r: bool)
        ensures
            r == self.passes(
                match name {
                    Some(name) => Some(name@),
                    None => None,
                },
            ),
    {
        match &self.name_prefix {
            Some(prefix) => match name {
                Some(name) => {
                    let name = chars_of(name);
                    let prefix = chars_of(prefix.as_str());
                    starts_with(name.as_slice(), prefix.as_slice())
                },
                None => false,
            },
            None => true,
        }
    }
}

/// A light reported by a discovery scan.
#[derive(Debug, PartialEq, Eq)]
pub struct Discovered {
    /// Stable transport-specific light identifier.
    pub id: LightId,
    /// Advertised device name, when available.
    pub name: Option<String>,
    /// Received signal strength in dBm, when available.
    pub rssi: Option<i16>,
}

impl Clone for Discovered {
    fn clone(&self) -> (r: Self)
        ensures
            r == *self,
    {
        Discovered { id: self.id.clone(), name: copy_text(&self.name), rssi: self.rssi }
    }
}

/// The acknowledgement behavior requested for a write.
#[derive(Debug, Clone, Copy, PartialEq, Eq, Structural)]
pub enum WriteKind {
    /// Request an acknowledgement from the peer.
    WithResponse,
    /// Complete without waiting for a peer acknowledgement.
    WithoutResponse,
}

/// A filter passes the devices whose name begins with its prefix, and no device without a
/// name; without a prefix it passes every device.
pub proof fn filters_pass_names_with_their_prefix(
    filter: ScanFilter,
    name: Seq<char>,
    rest: Seq<char>,
)
    ensures
        filter.name_prefix is None ==> filter.passes(None) && filter.passes(Some(name)),
        filter.name_prefix matches Some(prefix) ==> {
            &&& filter.passes(Some(prefix@ + rest))
            &&& !filter.passes(None)
            &&& filter.passes(Some(name)) ==> name == prefix@ + name.skip(prefix@.len() as int)
        },
{
    if filter.name_prefix is Some {
        prefixes_come_first(name, filter.name_prefix->0@, rest);
    }
}

} // verus!
