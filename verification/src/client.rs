//! A client's requests to the daemon and its live connection.
use vstd::prelude::*;
use vstd::string::StringExecFns;
use crate::state::{ClientMsg, ServerMsg, World, WorldSnapshot, WS_PROTOCOL_VERSION};
use crate::text::{decimal, owned, push_decimal};
use crate::world::{apply_server_message, backoff, folded, reconnect_backoff_ms, reconnect_wait_ms};

verus! {

/// A typed REST client failure.
#[derive(Debug)]
pub enum RequestError {
    /// The saved token is not valid.
    Auth,
    /// Anything else, in words.
    Request(String),
}

impl RequestError {
    /// Describes the failure in words.
    pub fn message(&self) -> (r: String)
        ensures
            r@ == match *self {
                RequestError::Auth => "authentication required"@,
                RequestError::Request(message) => message@,
            },
    {
        match self {
            RequestError::Auth => owned("authentication required"),
            RequestError::Request(message) => message.clone(),
        }
    }
}

/// The authorization header of a request. An empty token means that the daemon
/// asks for none.
pub fn authorization(token: &str) -> (r: Option<String>)
    ensures
        match r {
            Some(header) => token@.len() > 0 && header@ == "Bearer "@ + token@,
            None => token@.len() == 0,
        },
{
    if token.is_empty() {
        return None;
    }
    let mut header = owned("Bearer ");
    header.append(token);
    Some(header)
}

/// The words about a response that is no success.
pub open spec fn response_words(status: u16, body: Option<Seq<char>>) -> Seq<char> {
    let head = "daemon returned HTTP "@ + decimal(status as nat);
    match body {
        Some(text) => if text.len() == 0 {
            head
        } else {
            head + ": "@ + text
        },
        None => head,
    }
}

/// Judges a response by its status, and describes one that is no success with its
/// body.
pub fn check_response(status: u16, body: &Option<String>) -> (r: Result<(), RequestError>)
    ensures
        match r {
            Ok(_) => 200 <= status <= 299,
            Err(RequestError::Auth) => status == 401,
            Err(RequestError::Request(message)) => !(200 <= status <= 299) && status != 401
                && message@ == response_words(
                status,
                match *body {
                    Some(text) => Some(text@),
                    None => None,
                },
            ),
        },
{
    if status == 401 {
        return Err(RequestError::Auth);
    }
    if 200 <= status && status <= 299 {
        return Ok(());
    }
    let mut text = owned("daemon returned HTTP ");
    push_decimal(&mut text, status as u64);
    if let Some(body) = body {
        if !body.as_str().is_empty() {
            text.append(": ");
            text.append(body.as_str());
        }
    }
    Err(RequestError::Request(text))
}

/// Current connection state of the live event stream.
#[derive(Clone, Copy, Debug, PartialEq, Eq, Structural)]
pub enum ConnStatus {
    Connecting,
    Live,
    Reconnecting { attempt: u32 },
}

/// The class and the words for the state of the live event stream.
pub fn status_summary(status: ConnStatus) -> (r: (&'static str, String))
    ensures
        (r.0@, r.1@) == match status {
            ConnStatus::Connecting => ("connecting"@, "Connecting"@),
            ConnStatus::Live => ("live"@, "Live"@),
            ConnStatus::Reconnecting { attempt } => (
                "reconnecting"@,
                "Reconnecting ("@ + decimal(attempt as nat) + ")"@,
            ),
        },
{
    match status {
        ConnStatus::Connecting => ("connecting", owned("Connecting")),
        ConnStatus::Live => ("live", owned("Live")),
        ConnStatus::Reconnecting { attempt } => {
            let mut text = owned("Reconnecting (");
            push_decimal(&mut text, attempt as u64);
            text.append(")");
            ("reconnecting", text)
        },
    }
}

/// What a message from the daemon asks of a client.
#[derive(Debug)]
pub enum Received {
    /// The connection is live now.
    Live,
    /// The world may have changed.
    World,
    /// The daemon ends the connection, for a reason in words.
    Refused(String),
}

/// A client's live connection: how often it was tried, and what it last saw.
#[derive(Debug)]
pub struct Connection {
    pub attempt: u32,
    pub last_seq: u64,
}

impl Connection {
    /// Starts from a world that was fetched.
    pub fn new(world: &WorldSnapshot) -> (r: Self)
        ensures
            r.attempt == 0,
            r.last_seq == world.seq,
    {
        Connection { attempt: 0, last_seq: world.seq }
    }

    /// The state to show while a connection is being made.
    pub fn dialling(&self) -> (r: ConnStatus)
        ensures
            r == if self.attempt == 0 {
                ConnStatus::Connecting
            } else {
                ConnStatus::Reconnecting { attempt: self.attempt }
            },
    {
        if self.attempt == 0 {
            ConnStatus::Connecting
        } else {
            ConnStatus::Reconnecting { attempt: self.attempt }
        }
    }

    /// The greeting that opens a connection with a ticket.
    pub fn hello(&self, ticket: String) -> (r: ClientMsg)
        ensures
            r == (ClientMsg::Hello {
                protocol_version: WS_PROTOCOL_VERSION,
                ticket,
                last_seq: Some(self.last_seq),
            }),
    {
        ClientMsg::Hello {
            protocol_version: WS_PROTOCOL_VERSION,
            ticket,
            last_seq: Some(self.last_seq),
        }
    }

    /// Takes a message from the daemon: folds it into the world, unless it ends the
    /// connection.
    pub fn receive(&mut self, world: &mut WorldSnapshot, message: &ServerMsg) -> (r: Received)
        ensures
            match *message {
                ServerMsg::Error { message: words } => {
                    &&& r matches Received::Refused(text) && text@ == words@
                    &&& *final(self) == *old(self)
                    &&& final(world)@ == old(world)@
                },
                ServerMsg::Welcome { .. } => {
                    &&& r is Live
                    &&& final(world)@ == folded(old(world)@, *message)
                    &&& final(self).attempt == 0
                    &&& final(self).last_seq == final(world)@.seq
                },
                _ => {
                    &&& r is World
                    &&& final(world)@ == folded(old(world)@, *message)
                    &&& final(self).attempt == old(self).attempt
                    &&& final(self).last_seq == final(world)@.seq
                },
            },
    {
        if let ServerMsg::Error { message: words } = message {
            return Received::Refused(words.clone());
        }
        let welcome = match message {
            ServerMsg::Welcome { .. } => true,
            _ => false,
        };
        if welcome {
            self.attempt = 0;
        }
        apply_server_message(world, message);
        self.last_seq = world.seq;
        if welcome {
            Received::Live
        } else {
            Received::World
        }
    }

    /// The connection ended: counts another attempt. Returns the state to show
    /// while waiting, and the most jitter that the wait may have.
    pub fn lost(&mut self) -> (r: (ConnStatus, u32))
        ensures
            final(self).attempt == if old(self).attempt == u32::MAX {
                u32::MAX
            } else {
                (old(self).attempt + 1) as u32
            },
            final(self).last_seq == old(self).last_seq,
            r.0 == (ConnStatus::Reconnecting { attempt: final(self).attempt }),
            r.1 == backoff(final(self).attempt as int) / 4 + 1,
    {
        self.attempt = self.attempt.saturating_add(1);
        let base: u32 = reconnect_backoff_ms(self.attempt);
        proof {
            crate::world::backoff_grows(self.attempt as int, self.attempt as int);
        }
        (ConnStatus::Reconnecting { attempt: self.attempt }, base / 4 + 1)
    }

    /// The milliseconds to wait before the next attempt, with some jitter.
    pub fn wait_ms(&self, jitter: u32) -> (r: u32)
        ensures
            r == if backoff(self.attempt as int) + jitter > 10_000 {
                10_000
            } else {
                backoff(self.attempt as int) + jitter
            },
    {
        reconnect_wait_ms(self.attempt, jitter)
    }
}

/// The token to start with: that of the address, which is to be stored, else the
/// one that was stored before.
pub fn starting_token(fragment: Option<String>, stored: Option<String>) -> (r: (
    Option<String>,
    bool,
))
    ensures
        r == match fragment {
            Some(token) => (Some(token), true),
            None => (stored, false),
        },
{
    match fragment {
        Some(token) => (Some(token), true),
        None => (stored, false),
    }
}

/// An error message that was shown for a while is to be cleared: it is still the
/// one that is shown.
pub fn should_clear(shown: &Option<String>, message: &String) -> (r: bool)
    ensures
        r == (shown matches Some(text) && text@ == message@),
{
    match shown {
        Some(text) => *text == *message,
        None => false,
    }
}

} // verus!
