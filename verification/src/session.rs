//! The event stream of one client: its greeting, its messages and its end.
use vstd::prelude::*;
use std::collections::VecDeque;
use crate::events::{newer, replay, replay_is_exact, replay_since};
use crate::registry::{nothing, Registry, EVENT_RING_CAPACITY};
use crate::state::{
    ClientMsg, ResyncReason, SeqEvent, ServerMsg, World, WorldSnapshot, WS_PROTOCOL_VERSION,
};
use crate::text::owned;
use crate::tickets::Tickets;
use crate::world::{fold_all, fold_all_adds, folded};

verus! {

/// How long a stream may be silent before a client is asked whether it is there.
pub const KEEPALIVE_INTERVAL_MS: u64 = 15_000;

/// The unanswered questions after which a client is taken to be gone.
pub const MAX_MISSED_PONGS: u8 = 2;

/// Why a client was turned away.
#[derive(Clone, Copy, Debug, PartialEq, Eq, Structural)]
pub enum Refusal {
    ExpectedHello,
    UnsupportedVersion,
    InvalidTicket,
}

impl Refusal {
    /// The refusal in words.
    pub open spec fn words(self) -> Seq<char> {
        match self {
            Refusal::ExpectedHello => "expected hello"@,
            Refusal::UnsupportedVersion => "unsupported protocol version"@,
            Refusal::InvalidTicket => "invalid or expired ticket"@,
        }
    }

    /// The message that tells a client why it was turned away.
    pub fn message(self) -> (r: ServerMsg)
        ensures
            r matches ServerMsg::Error { message } && message@ == self.words(),
    {
        ServerMsg::Error {
            message: match self {
                Refusal::ExpectedHello => owned("expected hello"),
                Refusal::UnsupportedVersion => owned("unsupported protocol version"),
                Refusal::InvalidTicket => owned("invalid or expired ticket"),
            },
        }
    }
}

/// Checks a client's first message, and uses up its ticket where the message is a
/// greeting of the right version. Returns the last event that the client saw.
pub fn check_hello(hello: &Option<ClientMsg>, tickets: &mut Tickets, now: u64) -> (r: Result<
    Option<u64>,
    Refusal,
>)
    requires
        old(tickets).wf(),
    ensures
        final(tickets).wf(),
        match *hello {
            Some(ClientMsg::Hello { protocol_version, ticket, last_seq }) => if protocol_version
                != WS_PROTOCOL_VERSION {
                r == Err::<Option<u64>, Refusal>(Refusal::UnsupportedVersion) && *final(tickets)
                    == *old(tickets)
            } else {
                &&& r == if old(tickets).opens(ticket@, now) {
                    Ok::<Option<u64>, Refusal>(last_seq)
                } else {
                    Err(Refusal::InvalidTicket)
                }
                &&& forall|later: u64| !(#[trigger] final(tickets).opens(ticket@, later))
                &&& forall|other: Seq<char>|
                    other != ticket@ ==> #[trigger] final(tickets).expiry(other) == old(
                        tickets,
                    ).expiry(other)
            },
            _ => r == Err::<Option<u64>, Refusal>(Refusal::ExpectedHello) && *final(tickets)
                == *old(tickets),
        },
{
    match hello {
        Some(ClientMsg::Hello { protocol_version, ticket, last_seq }) => {
            if *protocol_version != WS_PROTOCOL_VERSION {
                return Err(Refusal::UnsupportedVersion);
            }
            if tickets.consume(ticket, now) {
                Ok(*last_seq)
            } else {
                Err(Refusal::InvalidTicket)
            }
        },
        _ => Err(Refusal::ExpectedHello),
    }
}

/// The events that are replayed to a client that comes back. A last event beyond
/// the current one is from another life of the daemon.
pub open spec fn catch_up(
    last_seq: Option<u64>,
    world: World,
    kept: Seq<SeqEvent>,
) -> Option<Seq<SeqEvent>> {
    match last_seq {
        Some(seq) => if seq <= world.seq {
            replay(kept, seq as int)
        } else {
            None
        },
        None => None,
    }
}

/// The last event that a client has seen after its greeting.
pub open spec fn seen_after(world: World, missed: Option<Seq<SeqEvent>>) -> int {
    match missed {
        Some(events) => if events.len() > 0 && events.last().seq > world.seq {
            events.last().seq as int
        } else {
            world.seq
        },
        None => world.seq,
    }
}

/// What a client is greeted with.
#[derive(Debug)]
pub struct Greeting {
    /// The welcome, with a snapshot unless events are replayed.
    pub welcome: ServerMsg,
    /// The events that are replayed.
    pub patch: Option<ServerMsg>,
    /// The last event that the client has seen then.
    pub last_seq: u64,
}

/// A client's view of the world after its greeting.
pub open spec fn greeted(client: World, greeting: Greeting) -> World {
    match greeting.patch {
        Some(patch) => folded(folded(client, greeting.welcome), patch),
        None => folded(client, greeting.welcome),
    }
}

/// A greeting has a snapshot of the world, or else the events that the client
/// missed.
pub open spec fn greets(
    greeting: Greeting,
    last_seq: Option<u64>,
    world: WorldSnapshot,
    kept: Seq<SeqEvent>,
) -> bool {
    let missed = catch_up(last_seq, world@, kept);
    &&& greeting.welcome matches ServerMsg::Welcome { snapshot, .. } && snapshot == if missed is Some {
        None
    } else {
        Some(world)
    }
    &&& match missed {
        Some(events) => greeting.patch matches Some(ServerMsg::Patch { events: sent }) && sent@
            == events,
        None => greeting.patch is None,
    }
    &&& greeting.last_seq == seen_after(world@, missed)
}

/// Greets a client: with the events that it missed where they are all kept, else
/// with a snapshot of the world.
pub fn greet(
    last_seq: Option<u64>,
    world: WorldSnapshot,
    kept: &VecDeque<SeqEvent>,
    session: &str,
    server_version: &str,
) -> (r: Greeting)
    ensures
        greets(r, last_seq, world, kept@),
        r.welcome matches ServerMsg::Welcome {
            protocol_version,
            server_version: version,
            session: name,
            seq,
            ..
        } && {
            &&& protocol_version == WS_PROTOCOL_VERSION
            &&& version@ == server_version@
            &&& name@ == session@
            &&& seq == world.seq
        },
{
    let seq: u64 = world.seq;
    let missed = match last_seq {
        Some(last) => if last <= seq {
            replay_since(kept, last)
        } else {
            None
        },
        None => None,
    };
    match missed {
        Some(events) => {
            let n: usize = events.len();
            let newest: u64 = if n > 0 && events[n - 1].seq > seq {
                events[n - 1].seq
            } else {
                seq
            };
            Greeting {
                welcome: ServerMsg::Welcome {
                    protocol_version: WS_PROTOCOL_VERSION,
                    server_version: owned(server_version),
                    session: owned(session),
                    seq,
                    snapshot: None,
                },
                patch: Some(ServerMsg::Patch { events }),
                last_seq: newest,
            }
        },
        None => Greeting {
            welcome: ServerMsg::Welcome {
                protocol_version: WS_PROTOCOL_VERSION,
                server_version: owned(server_version),
                session: owned(session),
                seq,
                snapshot: Some(world),
            },
            patch: None,
            last_seq: seq,
        },
    }
}

/// Whatever a client last saw, its greeting brings it up to date. It gets a snapshot
/// only where it saw nothing, comes from another life of the daemon, or missed more
/// than is kept.
pub proof fn greetings_bring_clients_up_to_date(
    registry: Registry,
    world: WorldSnapshot,
    client: World,
    last_seq: Option<u64>,
    greeting: Greeting,
)
    requires
        registry.wf(),
        world@ == registry.shown(),
        greets(greeting, last_seq, world, registry.kept()),
        last_seq matches Some(seq) ==> (seq <= registry.shown().seq ==> client == fold_all(
            nothing(),
            registry.history().take(seq as int),
        )),
    ensures
        greeted(client, greeting) == registry.shown(),
        greeting.last_seq == registry.shown().seq,
        greeting.patch is None <==> match last_seq {
            Some(seq) => seq > registry.shown().seq || seq + EVENT_RING_CAPACITY
                < registry.shown().seq,
            None => true,
        },
{
    let log = registry.history();
    match last_seq {
        Some(seq) => {
            if seq <= registry.shown().seq {
                replay_is_exact(log, seq as int);
                if seq < log.len() {
                    fold_all_adds(nothing(), log.take(seq as int), log.skip(seq as int));
                    assert(log.take(seq as int) + log.skip(seq as int) =~= log);
                    assert(log.skip(seq as int).last() == log.last());
                } else {
                    assert(log.take(seq as int) =~= log);
                }
            }
        },
        None => {},
    }
}

/// A client in step with the events up to one of them stays in step when the
/// events after it are sent as a patch.
pub proof fn patches_keep_clients_in_step(
    log: Seq<SeqEvent>,
    client: World,
    seen: int,
    events: Vec<SeqEvent>,
)
    requires
        0 <= seen,
        seen + events@.len() <= log.len(),
        client == fold_all(nothing(), log.take(seen)),
        events@ == log.subrange(seen, seen + events@.len()),
    ensures
        folded(client, ServerMsg::Patch { events }) == fold_all(
            nothing(),
            log.take(seen + events@.len()),
        ),
{
    fold_all_adds(nothing(), log.take(seen), events@);
    assert(log.take(seen) + events@ =~= log.take(seen + events@.len()));
}

/// What a client sent.
#[derive(Debug)]
pub enum Incoming {
    /// A text, if it was a message.
    Text(Option<ClientMsg>),
    /// A question whether the daemon is there.
    Ping,
    /// An answer to such a question.
    Pong,
    /// Bytes, which mean nothing.
    Binary,
    /// The end of the stream.
    Closed,
}

/// What is to be done about something that a client sent.
#[derive(Clone, Copy, Debug, PartialEq, Eq, Structural)]
pub enum Response {
    Nothing,
    /// Send a message with the nonce back.
    Pong { nonce: u64 },
    /// Send the same payload back.
    Echo,
    /// End the stream.
    Close,
}

/// What is to be done when the time for a question has come.
#[derive(Clone, Copy, Debug, PartialEq, Eq, Structural)]
pub enum Keepalive {
    Quiet,
    /// Ask the client whether it is there.
    Ping,
    /// End the stream.
    Close,
}

/// The state of an open stream.
#[derive(Clone, Copy, Debug, PartialEq, Eq, Structural)]
pub struct Stream {
    /// The last event that the client has seen.
    pub last_seq: u64,
    /// The questions that the client has not answered.
    pub missed_pongs: u8,
    /// When something was last sent, in milliseconds.
    pub last_sent: u64,
}

impl Stream {
    /// No more questions are open than are asked.
    pub open spec fn wf(self) -> bool {
        self.missed_pongs <= MAX_MISSED_PONGS
    }

    /// Opens a stream after its greeting.
    pub fn new(last_seq: u64, now: u64) -> (r: Self)
        ensures
            r.wf(),
            r == (Stream { last_seq, missed_pongs: 0, last_sent: now }),
    {
        Stream { last_seq, missed_pongs: 0, last_sent: now }
    }

    /// Something was sent.
    pub fn sent(&mut self, now: u64)
        requires
            old(self).wf(),
        ensures
            final(self).wf(),
            *final(self) == (Stream { last_sent: now, ..*old(self) }),
    {
        self.last_sent = now;
    }

    /// Decides what to do about something that the client sent.
    pub fn receive(&mut self, incoming: &Incoming) -> (r: Response)
        requires
            old(self).wf(),
        ensures
            final(self).wf(),
            match *incoming {
                Incoming::Text(Some(ClientMsg::Ping { nonce })) => r == (Response::Pong { nonce })
                    && *final(self) == *old(self),
                Incoming::Text(_) => r == Response::Nothing && *final(self) == *old(self),
                Incoming::Ping => r == Response::Echo && *final(self) == *old(self),
                Incoming::Pong => r == Response::Nothing && *final(self) == (Stream {
                    missed_pongs: 0,
                    ..*old(self)
                }),
                Incoming::Binary => r == Response::Nothing && *final(self) == *old(self),
                Incoming::Closed => r == Response::Close && *final(self) == *old(self),
            },
    {
        match incoming {
            Incoming::Text(Some(ClientMsg::Ping { nonce })) => Response::Pong { nonce: *nonce },
            Incoming::Text(_) => Response::Nothing,
            Incoming::Ping => Response::Echo,
            Incoming::Pong => {
                self.missed_pongs = 0;
                Response::Nothing
            },
            Incoming::Binary => Response::Nothing,
            Incoming::Closed => Response::Close,
        }
    }

    /// Tells whether the client has not seen an event yet.
    pub fn wants(&self, event: &SeqEvent) -> (r: bool)
        ensures
            r == (event.seq > self.last_seq),
    {
        event.seq > self.last_seq
    }

    /// Tells whether the client has missed events before one.
    pub fn misses(&self, event: &SeqEvent) -> (r: bool)
        ensures
            r == (event.seq > self.last_seq + 1),
    {
        event.seq > self.last_seq && event.seq - self.last_seq > 1
    }

    /// The message with some events; the client has seen the last of them then.
    pub fn patch(&mut self, events: Vec<SeqEvent>) -> (r: ServerMsg)
        requires
            old(self).wf(),
        ensures
            final(self).wf(),
            r == (ServerMsg::Patch { events }),
            *final(self) == (Stream {
                last_seq: if events@.len() > 0 {
                    events@.last().seq
                } else {
                    old(self).last_seq
                },
                ..*old(self)
            }),
    {
        let n: usize = events.len();
        if n > 0 {
            self.last_seq = events[n - 1].seq;
        }
        ServerMsg::Patch { events }
    }

    /// The message for a batch of events that came in: a fresh snapshot where the
    /// client could not keep up, else the events.
    pub fn deliver(&mut self, batch: Vec<SeqEvent>, lagged: Option<WorldSnapshot>) -> (r: ServerMsg)
        requires
            old(self).wf(),
        ensures
            final(self).wf(),
            match lagged {
                Some(world) => {
                    &&& r == (ServerMsg::Resync {
                        snapshot: world,
                        reason: ResyncReason::ClientLagged,
                    })
                    &&& *final(self) == (Stream { last_seq: world.seq, ..*old(self) })
                },
                None => {
                    &&& r == (ServerMsg::Patch { events: batch })
                    &&& *final(self) == (Stream {
                        last_seq: if batch@.len() > 0 {
                            batch@.last().seq
                        } else {
                            old(self).last_seq
                        },
                        ..*old(self)
                    })
                },
            },
            wanted(batch@, old(self).last_seq) && (lagged matches Some(world) ==> world.seq >= old(
                self,
            ).last_seq) ==> follows(*old(self), r, *final(self)),
    {
        match lagged {
            Some(world) => self.resync(world),
            None => self.patch(batch),
        }
    }

    /// The message with a fresh snapshot for a client that could not keep up.
    pub fn resync(&mut self, world: WorldSnapshot) -> (r: ServerMsg)
        requires
            old(self).wf(),
        ensures
            final(self).wf(),
            r == (ServerMsg::Resync { snapshot: world, reason: ResyncReason::ClientLagged }),
            *final(self) == (Stream { last_seq: world.seq, ..*old(self) }),
    {
        self.last_seq = world.seq;
        ServerMsg::Resync { snapshot: world, reason: ResyncReason::ClientLagged }
    }

    /// Decides what to do when the time for a question has come: nothing where
    /// something was sent lately, and to give up a client that left too many
    /// questions open.
    pub fn tick(&mut self, now: u64) -> (r: Keepalive)
        requires
            old(self).wf(),
        ensures
            final(self).wf(),
            if now < old(self).last_sent + KEEPALIVE_INTERVAL_MS {
                r == Keepalive::Quiet && *final(self) == *old(self)
            } else if old(self).missed_pongs >= MAX_MISSED_PONGS {
                r == Keepalive::Close && *final(self) == *old(self)
            } else {
                &&& r == Keepalive::Ping
                &&& *final(self) == (Stream {
                    missed_pongs: (old(self).missed_pongs + 1) as u8,
                    last_sent: now,
                    ..*old(self)
                })
            },
    {
        if now.saturating_sub(self.last_sent) < KEEPALIVE_INTERVAL_MS {
            return Keepalive::Quiet;
        }
        if self.missed_pongs >= MAX_MISSED_PONGS {
            return Keepalive::Close;
        }
        self.missed_pongs = self.missed_pongs + 1;
        self.last_sent = now;
        Keepalive::Ping
    }
}

/// Events in strictly ascending order of their numbers.
pub open spec fn ascending(events: Seq<SeqEvent>) -> bool {
    forall|i: int, j: int|
        0 <= i < j < events.len() ==> (#[trigger] events[i]).seq < (#[trigger] events[j]).seq
}

/// Some events in ascending order, the first of them above a number.
pub open spec fn wanted(events: Seq<SeqEvent>, last_seq: u64) -> bool {
    events.len() > 0 && ascending(events) && events[0].seq > last_seq
}

/// What one message does to a stream that is fed with events in ascending order, and
/// with worlds that are no older than what was sent.
pub open spec fn follows(before: Stream, message: ServerMsg, after: Stream) -> bool {
    match message {
        ServerMsg::Patch { events } => wanted(events@, before.last_seq) && after.last_seq
            == events@.last().seq,
        ServerMsg::Resync { snapshot, .. } => snapshot.seq >= before.last_seq && after.last_seq
            == snapshot.seq,
        _ => after.last_seq == before.last_seq,
    }
}

/// The messages that are sent on a stream, with its states before and after each.
pub open spec fn is_feed(streams: Seq<Stream>, messages: Seq<ServerMsg>) -> bool {
    &&& streams.len() == messages.len() + 1
    &&& forall|i: int|
        0 <= i < messages.len() ==> follows(streams[i], #[trigger] messages[i], streams[i + 1])
}

/// The events in a message.
pub open spec fn events_in(message: ServerMsg) -> Seq<SeqEvent> {
    match message {
        ServerMsg::Patch { events } => events@,
        _ => Seq::empty(),
    }
}

/// The events in the greeting.
pub open spec fn replayed(greeting: Greeting) -> Seq<SeqEvent> {
    match greeting.patch {
        Some(patch) => events_in(patch),
        None => Seq::empty(),
    }
}

/// The events in the first `n` messages, one after another.
pub open spec fn sent_events(messages: Seq<ServerMsg>, n: int) -> Seq<SeqEvent>
    decreases n,
{
    if n <= 0 {
        Seq::empty()
    } else {
        sent_events(messages, n - 1) + events_in(messages[n - 1])
    }
}

/// Every event has a number above one and up to another.
pub open spec fn numbered_within(events: Seq<SeqEvent>, low: int, high: int) -> bool {
    forall|i: int| 0 <= i < events.len() ==> low < (#[trigger] events[i]).seq <= high
}

proof fn appended_ascend(a: Seq<SeqEvent>, b: Seq<SeqEvent>, middle: int)
    requires
        ascending(a),
        ascending(b),
        numbered_within(a, -1, middle),
        numbered_within(b, middle, u64::MAX as int),
    ensures
        ascending(a + b),
{
    let all = a + b;
    assert forall|i: int, j: int| 0 <= i < j < all.len() implies (#[trigger] all[i]).seq < (
    #[trigger] all[j]).seq by {
        if j < a.len() {
            assert(all[i] == a[i] && all[j] == a[j]);
        } else if i < a.len() {
            assert(all[i] == a[i] && all[j] == b[j - a.len()]);
        } else {
            assert(all[i] == b[i - a.len()] && all[j] == b[j - a.len()]);
        }
    }
}

proof fn feeds_ascend(streams: Seq<Stream>, messages: Seq<ServerMsg>, from: int, n: int)
    requires
        is_feed(streams, messages),
        0 <= from <= n <= messages.len(),
    ensures
        streams[from].last_seq <= streams[n].last_seq,
        from == 0 ==> ascending(sent_events(messages, n)) && numbered_within(
            sent_events(messages, n),
            streams[0].last_seq as int,
            streams[n].last_seq as int,
        ),
        from < n ==> numbered_within(
            events_in(messages[n - 1]),
            streams[from].last_seq as int,
            streams[n].last_seq as int,
        ),
    decreases n,
{
    if from < n {
        feeds_ascend(streams, messages, from, n - 1);
        let before = streams[n - 1];
        let after = streams[n];
        let events = events_in(messages[n - 1]);
        assert(follows(streams[n - 1], messages[n - 1], streams[n - 1 + 1]));
        assert(numbered_within(events, before.last_seq as int, after.last_seq as int));
        if from == 0 {
            let head = sent_events(messages, n - 1);
            appended_ascend(head, events, before.last_seq as int);
            let all = head + events;
            assert forall|i: int| 0 <= i < all.len() implies streams[0].last_seq < (
            #[trigger] all[i]).seq <= after.last_seq by {
                if i < head.len() {
                    assert(all[i] == head[i]);
                } else {
                    assert(all[i] == events[i - head.len()]);
                }
            }
        }
    }
}

proof fn newer_ascend(kept: Seq<SeqEvent>, seq: int)
    requires
        ascending(kept),
    ensures
        ascending(newer(kept, seq)),
        kept.len() > 0 ==> numbered_within(newer(kept, seq), seq, kept.last().seq as int),
    decreases kept.len(),
{
    if kept.len() > 0 {
        let rest = kept.drop_last();
        newer_ascend(rest, seq);
        let head = newer(rest, seq);
        if rest.len() > 0 {
            assert(rest.last() == kept[rest.len() - 1]);
            assert(kept[rest.len() - 1].seq < kept[kept.len() - 1].seq);
        } else {
            assert(head.len() == 0);
        }
        if kept.last().seq > seq {
            let all = head.push(kept.last());
            assert forall|i: int, j: int| 0 <= i < j < all.len() implies (#[trigger] all[i]).seq < (
            #[trigger] all[j]).seq by {
                assert(all[i] == head[i]);
            }
        }
    }
}

/// No event is sent twice on a stream, and none out of order: the numbers of all
/// events that are sent on it, those of the greeting included, strictly ascend. Where
/// the greeting has a snapshot, they are above the number of that.
pub proof fn streams_send_events_once(
    greeting: Greeting,
    last_seq: Option<u64>,
    world: WorldSnapshot,
    kept: Seq<SeqEvent>,
    streams: Seq<Stream>,
    messages: Seq<ServerMsg>,
)
    requires
        greets(greeting, last_seq, world, kept),
        ascending(kept),
        is_feed(streams, messages),
        streams[0].last_seq == greeting.last_seq,
    ensures
        ({
            let all = replayed(greeting) + sent_events(messages, messages.len() as int);
            &&& ascending(all)
            &&& greeting.patch is None ==> numbered_within(
                all,
                world.seq as int,
                u64::MAX as int,
            )
        }),
{
    let n = messages.len() as int;
    let first = replayed(greeting);
    let rest = sent_events(messages, n);
    feeds_ascend(streams, messages, 0, n);
    match catch_up(last_seq, world@, kept) {
        Some(events) => {
            assert(first == events);
            if events.len() > 0 {
                newer_ascend(kept, last_seq->0 as int);
                assert forall|i: int| 0 <= i < events.len() implies -1 < (
                #[trigger] events[i]).seq <= greeting.last_seq by {
                    if i < events.len() - 1 {
                        assert(events[i].seq < events[events.len() - 1].seq);
                    }
                }
            }
        },
        None => {
            assert(first =~= Seq::<SeqEvent>::empty());
        },
    }
    appended_ascend(first, rest, greeting.last_seq as int);
    if greeting.patch is None {
        assert(first + rest =~= rest);
    }
}

/// After a fresh snapshot only events above its number are sent.
pub proof fn resyncs_cover_what_came_before(
    streams: Seq<Stream>,
    messages: Seq<ServerMsg>,
    i: int,
    j: int,
)
    requires
        is_feed(streams, messages),
        0 <= i < j < messages.len(),
    ensures
        messages[i] matches ServerMsg::Resync { snapshot, .. } ==> numbered_within(
            events_in(messages[j]),
            snapshot.seq as int,
            u64::MAX as int,
        ),
{
    assert(follows(streams[i], messages[i], streams[i + 1]));
    feeds_ascend(streams, messages, i + 1, j + 1);
}

/// The events that a registry keeps are in ascending order.
pub proof fn kept_events_ascend(registry: Registry)
    requires
        registry.wf(),
    ensures
        ascending(registry.kept()),
{
}

} // verus!
