//! Replaying recent events to clients that come back.
use vstd::prelude::*;
use std::collections::VecDeque;
use crate::registry::{numbered, recent, EVENT_RING_CAPACITY};
use crate::state::SeqEvent;

verus! {

/// The events with a number above a given one.
pub open spec fn newer(events: Seq<SeqEvent>, seq: int) -> Seq<SeqEvent>
    decreases events.len(),
{
    if events.len() == 0 {
        events
    } else {
        let head = newer(events.drop_last(), seq);
        if events.last().seq > seq {
            head.push(events.last())
        } else {
            head
        }
    }
}

/// What is replayed to a client that has seen the events up to a number: the
/// newer ones, unless some of them are not kept any more.
pub open spec fn replay(kept: Seq<SeqEvent>, seq: int) -> Option<Seq<SeqEvent>> {
    if kept.len() == 0 || seq >= kept.last().seq {
        Some(Seq::empty())
    } else if seq + 1 < kept[0].seq {
        None
    } else {
        Some(newer(kept, seq))
    }
}

/// Replays events newer than `seq`, or returns `None` if the gap was evicted.
pub fn replay_since(ring: &VecDeque<SeqEvent>, seq: u64) -> (r: Option<Vec<SeqEvent>>)
    ensures
        match r {
            Some(events) => replay(ring@, seq as int) == Some(events@),
            None => replay(ring@, seq as int) is None,
        },
{
    let n: usize = ring.len();
    if n == 0 || seq >= ring[n - 1].seq {
        return Some(Vec::new());
    }
    if seq.saturating_add(1) < ring[0].seq {
        return None;
    }
    let mut events: Vec<SeqEvent> = Vec::new();
    let mut i: usize = 0;
    while i < n
        invariant
            i <= n,
            n == ring@.len(),
            events@ == newer(ring@.take(i as int), seq as int),
        decreases n - i,
    {
        assert(ring@.take(i + 1).drop_last() =~= ring@.take(i as int));
        if ring[i].seq > seq {
            events.push(ring[i].clone());
        }
        i += 1;
    }
    assert(ring@.take(i as int) =~= ring@);
    Some(events)
}

proof fn newer_is_the_rest(log: Seq<SeqEvent>, from: int, to: int, seq: int)
    requires
        numbered(log),
        0 <= from <= to <= log.len(),
        from <= seq <= log.len(),
    ensures
        newer(log.subrange(from, to), seq) == if seq <= to {
            log.subrange(seq, to)
        } else {
            Seq::empty()
        },
    decreases to - from,
{
    let part = log.subrange(from, to);
    if from < to {
        newer_is_the_rest(log, from, to - 1, seq);
        assert(part.drop_last() =~= log.subrange(from, to - 1));
        assert(part.last() == log[to - 1]);
        if to > seq {
            assert(log.subrange(seq, to) =~= log.subrange(seq, to - 1).push(log[to - 1]));
        } else if to == seq {
            assert(log.subrange(seq, to) =~= Seq::<SeqEvent>::empty());
        }
    } else {
        assert(part =~= Seq::<SeqEvent>::empty());
        if seq <= to {
            assert(log.subrange(seq, to) =~= Seq::<SeqEvent>::empty());
        }
    }
}

/// The replay from the events that are kept is exactly what was published since,
/// and it fails exactly for a client that missed more than are kept.
pub proof fn replay_is_exact(log: Seq<SeqEvent>, seq: int)
    requires
        numbered(log),
        0 <= seq,
    ensures
        replay(recent(log), seq) == if seq >= log.len() {
            Some(Seq::empty())
        } else if seq + EVENT_RING_CAPACITY < log.len() {
            None
        } else {
            Some(log.skip(seq))
        },
{
    let kept = recent(log);
    let first = log.len() - kept.len();
    if log.len() > 0 {
        assert(kept.last() == log.last());
        assert(kept[0] == log[first]);
        assert(kept =~= log.subrange(first, log.len() as int));
        if first <= seq < log.len() {
            newer_is_the_rest(log, first, log.len() as int, seq);
            assert(log.subrange(seq, log.len() as int) =~= log.skip(seq));
        }
    }
}

/// The events replayed are those that are newer than what was seen, in their order.
pub proof fn newer_events_are_kept_in_order(events: Seq<SeqEvent>, seq: int)
    ensures
        newer(events, seq) == events.filter(|event: SeqEvent| event.seq > seq),
    decreases events.len(),
{
    reveal(Seq::filter);
    if events.len() > 0 {
        newer_events_are_kept_in_order(events.drop_last(), seq);
    } else {
        assert(newer(events, seq) =~= Seq::<SeqEvent>::empty());
    }
}

} // verus!
