//! Single-use tickets that open an event stream.
use vstd::prelude::*;

verus! {

/// How long a ticket is valid, in milliseconds.
pub const TICKET_LIFETIME_MS: u64 = 30_000;

/// The time at which a ticket expires, if it was issued and not used.
pub open spec fn expiry_of(tickets: Seq<(String, u64)>, ticket: Seq<char>) -> Option<u64>
    decreases tickets.len(),
{
    if tickets.len() == 0 {
        None
    } else if tickets.last().0@ == ticket {
        Some(tickets.last().1)
    } else {
        expiry_of(tickets.drop_last(), ticket)
    }
}

/// The time at which a ticket expires, if that is still to come.
pub open spec fn still_valid(tickets: Seq<(String, u64)>, ticket: Seq<char>, now: u64) -> Option<
    u64,
> {
    match expiry_of(tickets, ticket) {
        Some(expiry) => if expiry > now {
            Some(expiry)
        } else {
            None
        },
        None => None,
    }
}

/// No ticket is listed twice.
pub open spec fn listed_once(tickets: Seq<(String, u64)>) -> bool {
    forall|i: int, j: int|
        0 <= i < j < tickets.len() ==> (#[trigger] tickets[i]).0@ != (#[trigger] tickets[j]).0@
}

proof fn no_expiry(tickets: Seq<(String, u64)>, ticket: Seq<char>)
    ensures
        expiry_of(tickets, ticket) is None <==> forall|i: int|
            0 <= i < tickets.len() ==> (#[trigger] tickets[i]).0@ != ticket,
    decreases tickets.len(),
{
    if tickets.len() > 0 {
        let rest = tickets.drop_last();
        no_expiry(rest, ticket);
        assert forall|i: int| 0 <= i < rest.len() implies rest[i] == tickets[i] by {}
        if tickets.last().0@ == ticket {
            assert(tickets[tickets.len() - 1].0@ == ticket);
        } else if expiry_of(rest, ticket) is None {
            assert forall|i: int| 0 <= i < tickets.len() implies (#[trigger] tickets[i]).0@
                != ticket by {
                if i < rest.len() {
                    assert(rest[i].0@ != ticket);
                }
            }
        } else {
            let i = choose|i: int| 0 <= i < rest.len() && (#[trigger] rest[i]).0@ == ticket;
            assert(tickets[i].0@ == ticket);
        }
    }
}

/// The tickets that have been issued and not used yet.
#[derive(Debug)]
pub struct Tickets {
    entries: Vec<(String, u64)>,
}

impl Tickets {
    /// The time at which a ticket expires, if it was issued and not used.
    pub closed spec fn expiry(self, ticket: Seq<char>) -> Option<u64> {
        expiry_of(self.entries@, ticket)
    }

    /// No ticket is listed twice.
    pub closed spec fn wf(self) -> bool {
        listed_once(self.entries@)
    }

    /// A ticket opens an event stream at a time.
    pub open spec fn opens(self, ticket: Seq<char>, now: u64) -> bool {
        self.expiry(ticket) matches Some(expiry) && expiry > now
    }

    /// No ticket has been issued.
    pub fn new() -> (r: Self)
        ensures
            r.wf(),
            forall|ticket: Seq<char>| #[trigger] r.expiry(ticket) is None,
    {
        Tickets { entries: Vec::new() }
    }

    /// Issues a ticket, and forgets those that have expired.
    pub fn issue(&mut self, ticket: &String, now: u64)
        requires
            old(self).wf(),
            now + TICKET_LIFETIME_MS <= u64::MAX,
        ensures
            final(self).wf(),
            forall|other: Seq<char>| #[trigger]
                final(self).expiry(other) == if other == ticket@ {
                    Some((now + TICKET_LIFETIME_MS) as u64)
                } else if old(self).opens(other, now) {
                    old(self).expiry(other)
                } else {
                    None
                },
    {
        let ghost before = self.entries@;
        let mut kept: Vec<(String, u64)> = Vec::new();
        let mut i: usize = 0;
        while i < self.entries.len()
            invariant
                i <= self.entries@.len(),
                self.entries@ == before,
                before == old(self).entries@,
                listed_once(before),
                forall|j: int| 0 <= j < kept@.len() ==> (#[trigger] kept@[j]).0@ != ticket@,
                listed_once(kept@),
                forall|j: int|
                    0 <= j < kept@.len() ==> exists|k: int|
                        0 <= k < i && (#[trigger] before[k]).0@ == (#[trigger] kept@[j]).0@,
                forall|other: Seq<char>|
                    other != ticket@ ==> #[trigger] expiry_of(kept@, other) == still_valid(
                        before.take(i as int),
                        other,
                        now,
                    ),
            decreases self.entries.len() - i,
        {
            let ghost whole = kept@;
            let ghost entry = before[i as int];
            proof {
                assert(before.take(i + 1).drop_last() =~= before.take(i as int));
                assert(before.take(i + 1).last() == entry);
                no_expiry(before.take(i as int), entry.0@);
                assert forall|k: int| 0 <= k < i implies (#[trigger] before.take(i as int)[k]).0@
                    != entry.0@ by {
                    assert(before[k].0@ != before[i as int].0@);
                }
            }
            if self.entries[i].1 > now && self.entries[i].0 != *ticket {
                let name = self.entries[i].0.clone();
                let expiry: u64 = self.entries[i].1;
                kept.push((name, expiry));
                assert(kept@ == whole.push(entry));
                assert(kept@.drop_last() =~= whole);
                assert forall|j: int| 0 <= j < kept@.len() implies exists|k: int|
                    0 <= k < i + 1 && (#[trigger] before[k]).0@ == (#[trigger] kept@[j]).0@ by {
                    if j < whole.len() {
                        assert(whole[j] == kept@[j]);
                        let k = choose|k: int|
                            0 <= k < i && (#[trigger] before[k]).0@ == whole[j].0@;
                        assert(before[k].0@ == kept@[j].0@);
                    } else {
                        assert(before[i as int].0@ == kept@[j].0@);
                    }
                }
                assert forall|a: int, b: int| 0 <= a < b < kept@.len() implies (
                #[trigger] kept@[a]).0@ != (#[trigger] kept@[b]).0@ by {
                    if b == whole.len() {
                        assert(whole[a] == kept@[a]);
                        let k = choose|k: int|
                            0 <= k < i && (#[trigger] before[k]).0@ == whole[a].0@;
                        assert(before[k].0@ != before[i as int].0@);
                    } else {
                        assert(whole[a].0@ != whole[b].0@);
                    }
                }
            }
            proof {
                let now_kept = kept@;
                assert forall|other: Seq<char>| other != ticket@ implies #[trigger] expiry_of(
                    now_kept,
                    other,
                ) == still_valid(before.take(i + 1), other, now) by {
                    assert(expiry_of(whole, other) == still_valid(
                        before.take(i as int),
                        other,
                        now,
                    ));
                    if now_kept != whole {
                        assert(now_kept.drop_last() =~= whole);
                    }
                }
            }
            i += 1;
        }
        assert(before.take(i as int) =~= before);
        let ghost kept_all = kept@;
        kept.push((ticket.clone(), now + TICKET_LIFETIME_MS));
        assert(kept@.drop_last() =~= kept_all);
        assert forall|a: int, b: int| 0 <= a < b < kept@.len() implies (#[trigger] kept@[a]).0@
            != (#[trigger] kept@[b]).0@ by {
            assert(kept_all[a] == kept@[a]);
            if b < kept_all.len() {
                assert(kept_all[b] == kept@[b]);
            }
        }
        self.entries = kept;
        assert forall|other: Seq<char>| #[trigger] final(self).expiry(other) == if other == ticket@ {
            Some((now + TICKET_LIFETIME_MS) as u64)
        } else if old(self).opens(other, now) {
            old(self).expiry(other)
        } else {
            None
        } by {
            if other != ticket@ {
                assert(expiry_of(kept_all, other) == still_valid(before, other, now));
            }
        }
    }

    /// Uses a ticket up. Returns whether it was issued, not used and not expired.
    pub fn consume(&mut self, ticket: &String, now: u64) -> (r: bool)
        requires
            old(self).wf(),
        ensures
            final(self).wf(),
            r == old(self).opens(ticket@, now),
            forall|later: u64| !(#[trigger] final(self).opens(ticket@, later)),
            forall|other: Seq<char>| #[trigger]
                final(self).expiry(other) == if other == ticket@ {
                    None
                } else {
                    old(self).expiry(other)
                },
    {
        let ghost before = self.entries@;
        let mut i: usize = 0;
        while i < self.entries.len()
            invariant
                i <= self.entries@.len(),
                self.entries@ == before,
                before == old(self).entries@,
                listed_once(before),
                forall|j: int| 0 <= j < i ==> (#[trigger] before[j]).0@ != ticket@,
            decreases self.entries.len() - i,
        {
            if self.entries[i].0 == *ticket {
                let expiry: u64 = self.entries[i].1;
                proof {
                    expiry_at(before, i as int);
                    let after = before.remove(i as int);
                    assert forall|a: int, b: int| 0 <= a < b < after.len() implies (
                    #[trigger] after[a]).0@ != (#[trigger] after[b]).0@ by {
                        let x = if a < i {
                            a
                        } else {
                            a + 1
                        };
                        let y = if b < i {
                            b
                        } else {
                            b + 1
                        };
                        assert(after[a] == before[x]);
                        assert(after[b] == before[y]);
                    }
                    assert forall|other: Seq<char>| #[trigger] expiry_of(after, other) == if other
                        == ticket@ {
                        None
                    } else {
                        expiry_of(before, other)
                    } by {
                        removed_expiry(before, i as int, other);
                    }
                }
                let _ = self.entries.remove(i);
                return expiry > now;
            }
            i += 1;
        }
        proof {
            no_expiry(before, ticket@);
        }
        false
    }
}

proof fn expiry_at(tickets: Seq<(String, u64)>, i: int)
    requires
        listed_once(tickets),
        0 <= i < tickets.len(),
    ensures
        expiry_of(tickets, tickets[i].0@) == Some(tickets[i].1),
    decreases tickets.len(),
{
    if i < tickets.len() - 1 {
        let rest = tickets.drop_last();
        assert(tickets[i].0@ != tickets[tickets.len() - 1].0@);
        assert(rest[i] == tickets[i]);
        expiry_at(rest, i);
    }
}

proof fn removed_expiry(tickets: Seq<(String, u64)>, i: int, other: Seq<char>)
    requires
        listed_once(tickets),
        0 <= i < tickets.len(),
    ensures
        expiry_of(tickets.remove(i), other) == if other == tickets[i].0@ {
            None
        } else {
            expiry_of(tickets, other)
        },
    decreases tickets.len(),
{
    let after = tickets.remove(i);
    let rest = tickets.drop_last();
    if i == tickets.len() - 1 {
        assert(after =~= rest);
        if other == tickets[i].0@ {
            no_expiry(after, other);
            assert forall|k: int| 0 <= k < after.len() implies (#[trigger] after[k]).0@ != other by {
                assert(tickets[k].0@ != tickets[i].0@);
            }
        }
    } else {
        removed_expiry(rest, i, other);
        assert(after.drop_last() =~= rest.remove(i));
        assert(after.last() == tickets.last());
        assert(rest[i] == tickets[i]);
        assert(tickets[i].0@ != tickets[tickets.len() - 1].0@);
    }
}

/// A ticket opens for half a minute after it was issued.
pub proof fn tickets_open_for_half_a_minute(tickets: Tickets, ticket: Seq<char>, issued: u64, now: u64)
    requires
        issued + TICKET_LIFETIME_MS <= u64::MAX,
        tickets.expiry(ticket) == Some((issued + TICKET_LIFETIME_MS) as u64),
    ensures
        tickets.opens(ticket, now) <==> now < issued + 30_000,
{
}

} // verus!
