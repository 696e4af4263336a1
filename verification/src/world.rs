//! How clients keep their view of the world up to date.
use vstd::prelude::*;
use crate::id::LightId;
use crate::state::{copy_status, Event, LightSnapshot, SeqEvent, ServerMsg, World, WorldSnapshot};

verus! {

/// The place of the first light with an identifier, or the number of lights.
pub open spec fn find_light(lights: Seq<LightSnapshot>, id: Seq<char>) -> int
    decreases lights.len(),
{
    if lights.len() == 0 {
        0
    } else if lights[0].id@ == id {
        0
    } else {
        1 + find_light(lights.drop_first(), id)
    }
}

/// Where the first light with an identifier is, if there is one.
pub proof fn find_light_is_first(lights: Seq<LightSnapshot>, id: Seq<char>)
    ensures
        0 <= find_light(lights, id) <= lights.len(),
        find_light(lights, id) < lights.len() ==> lights[find_light(lights, id)].id@ == id,
        forall|j: int| 0 <= j < find_light(lights, id) ==> (#[trigger] lights[j]).id@ != id,
    decreases lights.len(),
{
    if lights.len() > 0 && lights[0].id@ != id {
        let rest = lights.drop_first();
        find_light_is_first(rest, id);
        assert forall|j: int| 0 <= j < find_light(lights, id) implies (#[trigger] lights[j]).id@
            != id by {
            if j > 0 {
                assert(rest[j - 1] == lights[j]);
            }
        }
    }
}

/// A place with nothing but other lights before it is where a light is found.
pub proof fn found_at(lights: Seq<LightSnapshot>, id: Seq<char>, i: int)
    requires
        0 <= i <= lights.len(),
        i < lights.len() ==> lights[i].id@ == id,
        forall|j: int| 0 <= j < i ==> (#[trigger] lights[j]).id@ != id,
    ensures
        find_light(lights, id) == i,
{
    find_light_is_first(lights, id);
    let k = find_light(lights, id);
    if k < i {
        assert(lights[k].id@ != id);
    }
    if i < k {
        assert(lights[i].id@ != id);
    }
}

/// Lights with one of them replaced, or added where it was unknown.
pub open spec fn placed(lights: Seq<LightSnapshot>, light: LightSnapshot) -> Seq<LightSnapshot> {
    let i = find_light(lights, light.id@);
    if i < lights.len() {
        lights.update(i, light)
    } else {
        lights.push(light)
    }
}

/// Lights without those that have an identifier.
pub open spec fn without(lights: Seq<LightSnapshot>, id: Seq<char>) -> Seq<LightSnapshot>
    decreases lights.len(),
{
    if lights.len() == 0 {
        lights
    } else {
        let head = without(lights.drop_last(), id);
        if lights.last().id@ == id {
            head
        } else {
            head.push(lights.last())
        }
    }
}

/// A world after an event.
pub open spec fn fold(world: World, event: SeqEvent) -> World {
    let seq = event.seq as int;
    match event.event {
        Event::Light { light } => World { seq, lights: placed(world.lights, light), ..world },
        Event::LightRemoved { id } => World { seq, lights: without(world.lights, id@), ..world },
        Event::Playback { playback } => World { seq, playback, ..world },
    }
}

/// A world after some events.
pub open spec fn fold_all(world: World, events: Seq<SeqEvent>) -> World
    decreases events.len(),
{
    if events.len() == 0 {
        world
    } else {
        fold(fold_all(world, events.drop_last()), events.last())
    }
}

/// Folding one run of events after another is folding them all.
pub proof fn fold_all_adds(world: World, first: Seq<SeqEvent>, second: Seq<SeqEvent>)
    ensures
        fold_all(fold_all(world, first), second) == fold_all(world, first + second),
    decreases second.len(),
{
    if second.len() == 0 {
        assert(first + second =~= first);
    } else {
        fold_all_adds(world, first, second.drop_last());
        assert((first + second).drop_last() =~= first + second.drop_last());
    }
}

/// A world after a message from the daemon.
pub open spec fn folded(world: World, message: ServerMsg) -> World {
    match message {
        ServerMsg::Welcome { snapshot: Some(snapshot), .. } => snapshot@,
        ServerMsg::Resync { snapshot, .. } => snapshot@,
        ServerMsg::Patch { events } => fold_all(world, events@),
        _ => world,
    }
}

/// Finds the first light with an identifier.
pub fn position_of(lights: &[LightSnapshot], id: &LightId) -> (r: Option<usize>)
    ensures
        match r {
            Some(i) => i == find_light(lights@, id@) && i < lights@.len(),
            None => find_light(lights@, id@) == lights@.len(),
        },
{
    let mut i: usize = 0;
    while i < lights.len()
        invariant
            i <= lights@.len(),
            forall|j: int| 0 <= j < i ==> (#[trigger] lights@[j]).id@ != id@,
        decreases lights.len() - i,
    {
        if lights[i].id.same(id) {
            proof {
                found_at(lights@, id@, i as int);
            }
            return Some(i);
        }
        i += 1;
    }
    proof {
        found_at(lights@, id@, i as int);
    }
    None
}

fn place(lights: &mut Vec<LightSnapshot>, light: LightSnapshot)
    ensures
        final(lights)@ == placed(old(lights)@, light),
{
    match position_of(lights.as_slice(), &light.id) {
        Some(i) => {
            lights.set(i, light);
        },
        None => {
            lights.push(light);
        },
    }
}

fn remove(lights: &Vec<LightSnapshot>, id: &LightId) -> (r: Vec<LightSnapshot>)
    ensures
        r@ == without(lights@, id@),
{
    let mut r: Vec<LightSnapshot> = Vec::new();
    let mut i: usize = 0;
    while i < lights.len()
        invariant
            i <= lights@.len(),
            r@ == without(lights@.take(i as int), id@),
        decreases lights.len() - i,
    {
        assert(lights@.take(i + 1).drop_last() =~= lights@.take(i as int));
        if !lights[i].id.same(id) {
            r.push(lights[i].clone());
        }
        i += 1;
    }
    assert(lights@.take(i as int) =~= lights@);
    r
}

/// Folds one event into a world.
pub fn apply_event(world: &mut WorldSnapshot, event: &SeqEvent)
    ensures
        final(world)@ == fold(old(world)@, *event),
{
    match &event.event {
        Event::Light { light } => {
            place(&mut world.lights, light.clone());
        },
        Event::LightRemoved { id } => {
            world.lights = remove(&world.lights, id);
        },
        Event::Playback { playback } => {
            world.playback = copy_status(playback);
        },
    }
    world.seq = event.seq;
}

/// Folds a protocol message into the current world snapshot.
pub fn apply_server_message(world: &mut WorldSnapshot, message: &ServerMsg)
    ensures
        final(world)@ == folded(old(world)@, *message),
{
    match message {
        ServerMsg::Welcome { snapshot: Some(snapshot), .. } => {
            *world = snapshot.clone();
        },
        ServerMsg::Resync { snapshot, .. } => {
            *world = snapshot.clone();
        },
        ServerMsg::Patch { events } => {
            let mut i: usize = 0;
            while i < events.len()
                invariant
                    i <= events@.len(),
                    world@ == fold_all(old(world)@, events@.take(i as int)),
                decreases events.len() - i,
            {
                assert(events@.take(i + 1).drop_last() =~= events@.take(i as int));
                apply_event(world, &events[i]);
                i += 1;
            }
            assert(events@.take(i as int) =~= events@);
        },
        ServerMsg::Welcome { snapshot: None, .. }
        | ServerMsg::Pong { .. }
        | ServerMsg::Error { .. } => {},
    }
}

/// Returns the capped exponential delay before a reconnect attempt.
pub fn reconnect_backoff_ms(attempt: u32) -> (r: u32)
    ensures
        r == backoff(attempt as int),
{
    let mut delay: u32 = 250;
    let mut i: u32 = 1;
    while i < attempt && delay < 10_000
        invariant
            1 <= i,
            attempt >= 1 ==> i <= attempt,
            attempt == 0 ==> i == 1,
            delay == backoff(i as int),
            250 <= delay <= 10_000,
        decreases attempt - i,
    {
        delay = if delay > 5_000 {
            10_000
        } else {
            2 * delay
        };
        i += 1;
    }
    proof {
        if i < attempt {
            backoff_is_capped(i as int, attempt as int);
        }
    }
    delay
}

/// The milliseconds before a reconnect attempt: a quarter of a second at first,
/// twice as long each time, ten seconds at most.
pub open spec fn backoff(attempt: int) -> int
    decreases attempt,
{
    if attempt <= 1 {
        250
    } else if 2 * backoff(attempt - 1) > 10_000 {
        10_000
    } else {
        2 * backoff(attempt - 1)
    }
}

/// Later reconnect attempts never wait for less time than earlier ones, and none
/// waits longer than ten seconds.
pub proof fn backoff_grows(earlier: int, later: int)
    requires
        earlier <= later,
    ensures
        250 <= backoff(earlier) <= backoff(later) <= 10_000,
    decreases later,
{
    if later > 1 {
        if earlier < later {
            backoff_grows(earlier, later - 1);
        } else {
            backoff_grows(earlier - 1, later - 1);
        }
    }
}

proof fn backoff_is_capped(i: int, attempt: int)
    requires
        1 <= i <= attempt,
        backoff(i) >= 10_000,
    ensures
        backoff(attempt) == 10_000,
{
    backoff_grows(i, attempt);
}

/// The time to wait before a reconnect attempt: the delay of the attempt and some
/// jitter, ten seconds at most.
pub fn reconnect_wait_ms(attempt: u32, jitter: u32) -> (r: u32)
    ensures
        r == if backoff(attempt as int) + jitter > 10_000 {
            10_000
        } else {
            backoff(attempt as int) + jitter
        },
{
    let base: u32 = reconnect_backoff_ms(attempt);
    let wait: u32 = base.saturating_add(jitter);
    if wait > 10_000 {
        10_000
    } else {
        wait
    }
}

/// The first reconnect attempt waits a quarter of a second, and each one twice as long as
/// the one before it until ten seconds are reached.
pub proof fn backoff_doubles(attempt: int)
    ensures
        attempt <= 1 ==> backoff(attempt) == 250,
        attempt >= 1 && 2 * backoff(attempt) <= 10_000 ==> backoff(attempt + 1) == 2 * backoff(
            attempt,
        ),
        attempt >= 1 && 2 * backoff(attempt) > 10_000 ==> backoff(attempt + 1) == 10_000,
{
}

proof fn without_is_exact(lights: Seq<LightSnapshot>, id: Seq<char>, light: LightSnapshot)
    ensures
        without(lights, id).contains(light) <==> lights.contains(light) && light.id@ != id,
        without(lights, id).len() <= lights.len(),
        (forall|i: int| 0 <= i < lights.len() ==> (#[trigger] lights[i]).id@ != id) ==> without(
            lights,
            id,
        ) == lights,
    decreases lights.len(),
{
    if lights.len() > 0 {
        let rest = lights.drop_last();
        without_is_exact(rest, id, light);
        let head = without(rest, id);
        let all = without(lights, id);
        assert(lights =~= rest.push(lights.last()));
        if rest.contains(light) {
            let k = choose|k: int| 0 <= k < rest.len() && rest[k] == light;
            assert(lights[k] == light);
        }
        if lights.contains(light) && light != lights.last() {
            let k = choose|k: int| 0 <= k < lights.len() && lights[k] == light;
            assert(rest[k] == light);
        }
        if light == lights.last() {
            assert(lights[lights.len() - 1] == light);
        }
        if head.contains(light) {
            let k = choose|k: int| 0 <= k < head.len() && head[k] == light;
            assert(all[k] == light);
        }
        if all.contains(light) && !head.contains(light) {
            let k = choose|k: int| 0 <= k < all.len() && all[k] == light;
            if k < head.len() {
                assert(head[k] == light);
            }
        }
        if lights.last().id@ != id && light == lights.last() {
            assert(all[head.len() as int] == light);
        }
        if forall|i: int| 0 <= i < lights.len() ==> (#[trigger] lights[i]).id@ != id {
            assert forall|i: int| 0 <= i < rest.len() implies (#[trigger] rest[i]).id@ != id by {
                assert(rest[i] == lights[i]);
            }
            assert(lights[lights.len() - 1].id@ != id);
        }
    } else {
        assert(!lights.contains(light));
    }
}

/// An event has its number, and changes only what it is about. One about a light puts it
/// in the place of the first light with its identifier, or behind all lights where there
/// is none. One about a light that is gone leaves all lights but those with its identifier.
/// One about the playback leaves the lights.
pub proof fn events_change_what_they_are_about(world: World, event: SeqEvent, i: int)
    requires
        0 <= i < world.lights.len(),
    ensures
        fold(world, event).seq == event.seq,
        match event.event {
            Event::Light { light } => {
                let after = fold(world, event).lights;
                &&& fold(world, event).playback == world.playback
                &&& world.lights[i].id@ != light.id@ ==> after[i] == world.lights[i]
                &&& world.lights[i].id@ == light.id@ && (forall|j: int|
                    0 <= j < i ==> (#[trigger] world.lights[j]).id@ != light.id@) ==> after.len()
                    == world.lights.len() && after[i] == light
                &&& (forall|j: int|
                    0 <= j < world.lights.len() ==> (#[trigger] world.lights[j]).id@ != light.id@)
                    ==> after == world.lights.push(light)
                &&& after.len() <= world.lights.len() + 1
            },
            Event::LightRemoved { id } => {
                let after = fold(world, event).lights;
                &&& fold(world, event).playback == world.playback
                &&& forall|light: LightSnapshot| #[trigger]
                    after.contains(light) <==> world.lights.contains(light) && light.id@ != id@
            },
            Event::Playback { playback } => {
                &&& fold(world, event).playback == playback
                &&& fold(world, event).lights == world.lights
            },
        },
{
    match event.event {
        Event::Light { light } => {
            find_light_is_first(world.lights, light.id@);
            if world.lights[i].id@ == light.id@ && forall|j: int|
                0 <= j < i ==> (#[trigger] world.lights[j]).id@ != light.id@ {
                found_at(world.lights, light.id@, i);
            }
        },
        Event::LightRemoved { id } => {
            assert forall|light: LightSnapshot| #[trigger]
                fold(world, event).lights.contains(light) <==> world.lights.contains(light)
                    && light.id@ != id@ by {
                without_is_exact(world.lights, id@, light);
            }
        },
        Event::Playback { playback } => {},
    }
}

/// A message does what its events do one after another; a snapshot takes the place of all
/// that was known, and every other message changes nothing.
pub proof fn messages_bring_events_or_snapshots(world: World, message: ServerMsg)
    ensures
        match message {
            ServerMsg::Welcome { snapshot: Some(snapshot), .. } => folded(world, message)
                == snapshot@,
            ServerMsg::Resync { snapshot, .. } => folded(world, message) == snapshot@,
            ServerMsg::Patch { events } => {
                &&& events@.len() == 0 ==> folded(world, message) == world
                &&& events@.len() == 1 ==> folded(world, message) == fold(world, events@[0])
                &&& forall|k: int|
                    #![trigger events@.take(k)]
                    0 <= k <= events@.len() ==> folded(world, message) == fold_all(
                        fold_all(world, events@.take(k)),
                        events@.skip(k),
                    )
            },
            _ => folded(world, message) == world,
        },
{
    if let ServerMsg::Patch { events } = message {
        reveal_with_fuel(fold_all, 2);
        assert forall|k: int|
            #![trigger events@.take(k)]
            0 <= k <= events@.len() implies folded(world, message) == fold_all(
            fold_all(world, events@.take(k)),
            events@.skip(k),
        ) by {
            fold_all_adds(world, events@.take(k), events@.skip(k));
            assert(events@.take(k) + events@.skip(k) =~= events@);
        }
    }
}

/// A light that is removed goes, and the others stay in their order.
pub proof fn removals_keep_the_order_of_the_rest(lights: Seq<LightSnapshot>, id: Seq<char>)
    ensures
        without(lights, id) == lights.filter(|light: LightSnapshot| light.id@ != id),
    decreases lights.len(),
{
    reveal(Seq::filter);
    if lights.len() > 0 {
        removals_keep_the_order_of_the_rest(lights.drop_last(), id);
    } else {
        assert(without(lights, id) =~= Seq::<LightSnapshot>::empty());
    }
}

} // verus!
