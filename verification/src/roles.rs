//! Which lights play which part of an animation, in the simplest terms.
use vstd::arithmetic::div_mod::lemma_fundamental_div_mod_converse;
use vstd::prelude::*;
use crate::animation::{lookup, AnimTarget, Keyframe, PlaybackOptions, SlotNumber, TargetBinding};
use crate::mode::Mode;
use crate::playback::{
    animation_is_first, began, bound_lights, connected_among, is_played, lights_of, names,
    played_among, references, resolution, resolved, resolved_models, reverts, target_at,
    target_models, Started,
};
use crate::registry::{distinct, leased_by, selected, Registry};
use crate::selector::Selector;
use crate::state::{ConnState, Event, LightSnapshot};
use crate::text::decimal;
use crate::world::found_at;

verus! {

/// A selector names a light, or all of them.
pub open spec fn picks(selector: Selector, id: Seq<char>) -> bool {
    match selector {
        Selector::All => true,
        Selector::Ids { ids } => exists|k: int| 0 <= k < ids@.len() && (#[trigger] ids@[k])@ == id,
    }
}

/// Places in ascending order, none of them twice.
pub open spec fn in_turn(places: Seq<int>) -> bool {
    forall|a: int, b: int| 0 <= a < b < places.len() ==> #[trigger] places[a] < #[trigger] places[b]
}

/// The places of the lights that a selector names, in their order, and no others.
pub open spec fn are_picked(places: Seq<int>, lights: Seq<LightSnapshot>, selector: Selector) -> bool {
    &&& in_turn(places)
    &&& forall|i: int| #[trigger]
        places.contains(i) <==> 0 <= i < lights.len() && picks(selector, lights[i].id@)
}

/// The places of the connected lights that a selector names, in their order, and no
/// others.
pub open spec fn are_on_air(places: Seq<int>, lights: Seq<LightSnapshot>, selector: Selector) -> bool {
    &&& in_turn(places)
    &&& forall|i: int| #[trigger]
        places.contains(i) <==> 0 <= i < lights.len() && picks(selector, lights[i].id@)
            && lights[i].conn == ConnState::Connected
}

/// Places in order are determined by which they are.
pub proof fn same_places(a: Seq<int>, b: Seq<int>)
    requires
        in_turn(a),
        in_turn(b),
        forall|i: int| #[trigger] a.contains(i) <==> b.contains(i),
    ensures
        a == b,
    decreases a.len(),
{
    if a.len() == 0 {
        if b.len() > 0 {
            assert(b.contains(b[0]));
            assert(a.contains(b[0]));
        }
        assert(a =~= b);
    } else {
        assert(a.contains(a.last()));
        assert(b.contains(a.last()));
        assert(b.contains(b.last()));
        assert(a.contains(b.last()));
        let x = a.drop_last();
        let y = b.drop_last();
        let p = choose|p: int| 0 <= p < a.len() && a[p] == b.last();
        let q = choose|q: int| 0 <= q < b.len() && b[q] == a.last();
        assert(a[p] <= a.last());
        assert(b[q] <= b.last());
        assert(a.last() == b.last());
        assert forall|i: int| #[trigger] x.contains(i) <==> y.contains(i) by {
            if x.contains(i) {
                let k = choose|k: int| 0 <= k < x.len() && x[k] == i;
                assert(a[k] == i && a[k] < a[a.len() - 1]);
                assert(a.contains(i));
                assert(b.contains(i));
                let m = choose|m: int| 0 <= m < b.len() && b[m] == i;
                assert(m < b.len() - 1);
                assert(y[m] == i);
            }
            if y.contains(i) {
                let k = choose|k: int| 0 <= k < y.len() && y[k] == i;
                assert(b[k] == i && b[k] < b[b.len() - 1]);
                assert(b.contains(i));
                assert(a.contains(i));
                let m = choose|m: int| 0 <= m < a.len() && a[m] == i;
                assert(m < a.len() - 1);
                assert(x[m] == i);
            }
        }
        same_places(x, y);
        assert(a =~= x.push(a.last()));
        assert(b =~= y.push(b.last()));
    }
}

proof fn pushed_last(places: Seq<int>, more: int, i: int)
    ensures
        places.push(more).contains(i) <==> places.contains(i) || i == more,
{
    let all = places.push(more);
    if places.contains(i) {
        let k = choose|k: int| 0 <= k < places.len() && places[k] == i;
        assert(all[k] == i);
    }
    if i == more {
        assert(all[places.len() as int] == i);
    }
    if all.contains(i) && i != more {
        let k = choose|k: int| 0 <= k < all.len() && all[k] == i;
        assert(places[k] == i);
    }
}

pub(crate) proof fn selection_is_exact(lights: Seq<LightSnapshot>, selector: Selector, n: int)
    requires
        0 <= n <= lights.len(),
    ensures
        in_turn(selected(lights, selector, n)),
        forall|i: int| #[trigger]
            selected(lights, selector, n).contains(i) <==> 0 <= i < n && picks(
                selector,
                lights[i].id@,
            ),
    decreases n,
{
    if n > 0 {
        selection_is_exact(lights, selector, n - 1);
        let head = selected(lights, selector, n - 1);
        let all = selected(lights, selector, n);
        assert forall|i: int| #[trigger] all.contains(i) <==> 0 <= i < n && picks(
            selector,
            lights[i].id@,
        ) by {
            pushed_last(head, n - 1, i);
            assert(head.contains(i) <==> 0 <= i < n - 1 && picks(selector, lights[i].id@));
        }
        assert forall|a: int, b: int| 0 <= a < b < all.len() implies #[trigger] all[a]
            < #[trigger] all[b] by {
            assert(all[a] == head[a]);
            assert(head.contains(head[a]));
            if b < head.len() {
                assert(all[b] == head[b]);
            }
        }
    }
}

/// A selector chooses exactly the lights that it names, in their order.
pub proof fn selectors_choose_what_they_name(
    lights: Seq<LightSnapshot>,
    selector: Selector,
    places: Seq<int>,
)
    requires
        are_picked(places, lights, selector),
    ensures
        selected(lights, selector, lights.len() as int) == places,
{
    selection_is_exact(lights, selector, lights.len() as int);
    let all = selected(lights, selector, lights.len() as int);
    assert forall|i: int| #[trigger] all.contains(i) <==> places.contains(i) by {}
    same_places(all, places);
}

proof fn connected_are_exact(lights: Seq<LightSnapshot>, chosen: Seq<int>, n: int)
    requires
        0 <= n <= chosen.len(),
        in_turn(chosen),
    ensures
        in_turn(connected_among(lights, chosen, n)),
        forall|i: int| #[trigger]
            connected_among(lights, chosen, n).contains(i) <==> chosen.take(n).contains(i)
                && lights[i].conn == ConnState::Connected,
    decreases n,
{
    if n > 0 {
        connected_are_exact(lights, chosen, n - 1);
        let head = connected_among(lights, chosen, n - 1);
        let all = connected_among(lights, chosen, n);
        let before = chosen.take(n - 1);
        assert(chosen.take(n) =~= before.push(chosen[n - 1]));
        assert forall|i: int| #[trigger] all.contains(i) <==> chosen.take(n).contains(i)
            && lights[i].conn == ConnState::Connected by {
            pushed_last(head, chosen[n - 1], i);
            pushed_last(before, chosen[n - 1], i);
            assert(head.contains(i) <==> before.contains(i) && lights[i].conn
                == ConnState::Connected);
        }
        assert forall|a: int, b: int| 0 <= a < b < all.len() implies #[trigger] all[a]
            < #[trigger] all[b] by {
            assert(all[a] == head[a]);
            assert(head.contains(head[a]));
            assert(before.contains(head[a]));
            let k = choose|k: int| 0 <= k < before.len() && before[k] == head[a];
            assert(chosen[k] < chosen[n - 1]);
            if b < head.len() {
                assert(all[b] == head[b]);
            }
        }
    } else {
        assert(chosen.take(0) =~= Seq::<int>::empty());
    }
}

proof fn bound_lights_are(lights: Seq<LightSnapshot>, binding: TargetBinding, all: Seq<int>)
    requires
        are_on_air(all, lights, binding.all),
    ensures
        bound_lights(lights, binding) == all,
{
    let n = lights.len() as int;
    let chosen = selected(lights, binding.all, n);
    selection_is_exact(lights, binding.all, n);
    connected_are_exact(lights, chosen, chosen.len() as int);
    assert(chosen.take(chosen.len() as int) =~= chosen);
    let bound = bound_lights(lights, binding);
    assert forall|i: int| #[trigger] bound.contains(i) <==> all.contains(i) by {
        assert(chosen.contains(i) <==> 0 <= i < n && picks(binding.all, lights[i].id@));
    }
    same_places(bound, all);
}

/// Slots without a light of their own go round the lights that stand for all, one light
/// each, in their order, and start again with the first when all have had their turn.
pub proof fn slots_go_round_the_lights(
    lights: Seq<LightSnapshot>,
    binding: TargetBinding,
    all: Seq<int>,
    slot: SlotNumber,
    round: int,
    turn: int,
)
    requires
        slot.wf(),
        are_on_air(all, lights, binding.all),
        slot@ > binding.slots@.len(),
        0 <= turn < all.len(),
        slot@ == round * all.len() + turn + 1,
    ensures
        lights_of(lights, binding, AnimTarget::Slot(slot)) == Ok::<Seq<int>, Seq<char>>(
            seq![all[turn]],
        ),
{
    bound_lights_are(lights, binding, all);
    let n = all.len() as int;
    lemma_fundamental_div_mod_converse(slot@ - 1, n, round, turn);
}

/// As long as there are lights enough, slots without a light of their own have lights
/// that no other such slot has: the first slot the first light, and so on.
pub proof fn slots_have_different_lights(
    lights: Seq<LightSnapshot>,
    binding: TargetBinding,
    all: Seq<int>,
    a: SlotNumber,
    b: SlotNumber,
)
    requires
        a.wf(),
        b.wf(),
        are_on_air(all, lights, binding.all),
        binding.slots@.len() < a@ < b@ <= all.len(),
    ensures
        lights_of(lights, binding, AnimTarget::Slot(a)) == Ok::<Seq<int>, Seq<char>>(
            seq![all[a@ - 1]],
        ),
        lights_of(lights, binding, AnimTarget::Slot(b)) == Ok::<Seq<int>, Seq<char>>(
            seq![all[b@ - 1]],
        ),
        all[a@ - 1] < all[b@ - 1],
{
    slots_go_round_the_lights(lights, binding, all, a, 0, a@ - 1);
    slots_go_round_the_lights(lights, binding, all, b, 0, b@ - 1);
}

/// A slot that a binding gives a light has that light and no other, as long as the light
/// is connected; otherwise it has none, and the fault names the slot and the light.
pub proof fn bound_slots_have_their_light(
    lights: Seq<LightSnapshot>,
    binding: TargetBinding,
    slot: SlotNumber,
    i: int,
)
    requires
        slot.wf(),
        slot@ <= binding.slots@.len(),
        distinct(lights),
        0 <= i <= lights.len(),
        i < lights.len() ==> lights[i].id@ == binding.slots@[slot@ - 1]@,
        i == lights.len() ==> forall|j: int|
            0 <= j < lights.len() ==> (#[trigger] lights[j]).id@ != binding.slots@[slot@ - 1]@,
    ensures
        lights_of(lights, binding, AnimTarget::Slot(slot)) == if i < lights.len()
            && lights[i].conn == ConnState::Connected {
            Ok::<Seq<int>, Seq<char>>(seq![i])
        } else {
            Err(
                "slot "@ + decimal(slot@ as nat) + " light "@ + binding.slots@[slot@ - 1]@
                    + " is not connected"@,
            )
        },
{
    if i < lights.len() {
        assert forall|j: int| 0 <= j < i implies (#[trigger] lights[j]).id@ != lights[i].id@ by {}
    }
    found_at(lights, binding.slots@[slot@ - 1]@, i);
}

/// All lights together are those that the binding names and that are connected. Where
/// there are none, neither they nor a slot without a light of its own can be played.
pub proof fn everything_is_what_is_on_air(
    lights: Seq<LightSnapshot>,
    binding: TargetBinding,
    all: Seq<int>,
    slot: SlotNumber,
)
    requires
        slot.wf(),
        are_on_air(all, lights, binding.all),
    ensures
        lights_of(lights, binding, AnimTarget::All) == if all.len() > 0 {
            Ok::<Seq<int>, Seq<char>>(all)
        } else {
            Err("target All resolved to no connected lights"@)
        },
        all.len() == 0 && slot@ > binding.slots@.len() ==> lights_of(
            lights,
            binding,
            AnimTarget::Slot(slot),
        ) == Err::<Seq<int>, Seq<char>>(
            "slot "@ + decimal(slot@ as nat) + " cannot resolve because no lights are connected"@,
        ),
{
    bound_lights_are(lights, binding, all);
}

/// A keyframe of an animation sets a target.
pub open spec fn is_set(keyframes: Seq<Keyframe>, target: AnimTarget) -> bool {
    exists|k: int, e: int|
        0 <= k < keyframes.len() && 0 <= e < keyframes[k].lights@.len() && (
        #[trigger] keyframes[k].lights@[e]).0 == target
}

proof fn found_entries(entries: Seq<(AnimTarget, Mode)>, target: AnimTarget)
    ensures
        lookup(entries, target) is Some <==> exists|e: int|
            0 <= e < entries.len() && (#[trigger] entries[e]).0 == target,
    decreases entries.len(),
{
    if entries.len() > 0 && entries[0].0 != target {
        let rest = entries.drop_first();
        found_entries(rest, target);
        if lookup(rest, target) is Some {
            let e = choose|e: int| 0 <= e < rest.len() && (#[trigger] rest[e]).0 == target;
            assert(entries[e + 1].0 == target);
        }
        if exists|e: int| 0 <= e < entries.len() && (#[trigger] entries[e]).0 == target {
            let e = choose|e: int| 0 <= e < entries.len() && (#[trigger] entries[e]).0 == target;
            assert(rest[e - 1] == entries[e]);
        }
    }
}

proof fn references_are_set(keyframes: Seq<Keyframe>, target: AnimTarget)
    ensures
        references(keyframes, target) <==> is_set(keyframes, target),
{
    if references(keyframes, target) {
        let k = choose|k: int|
            0 <= k < keyframes.len() && names(#[trigger] keyframes[k], target);
        found_entries(keyframes[k].lights@, target);
        let e = choose|e: int|
            0 <= e < keyframes[k].lights@.len() && (#[trigger] keyframes[k].lights@[e]).0 == target;
        assert(keyframes[k].lights@[e].0 == target);
    }
    if is_set(keyframes, target) {
        let (k, e) = choose|k: int, e: int|
            0 <= k < keyframes.len() && 0 <= e < keyframes[k].lights@.len() && (
            #[trigger] keyframes[k].lights@[e]).0 == target;
        found_entries(keyframes[k].lights@, target);
        assert(names(keyframes[k], target));
    }
}

/// The targets with places below a number that an animation sets, each with the lights
/// that it stands for.
pub open(crate) spec fn casts_below(
    parts: Seq<(AnimTarget, Seq<int>)>,
    lights: Seq<LightSnapshot>,
    keyframes: Seq<Keyframe>,
    binding: TargetBinding,
    n: int,
) -> bool {
    &&& forall|a: int, b: int|
        0 <= a < b < parts.len() ==> (#[trigger] parts[a]).0.rank() < (
        #[trigger] parts[b]).0.rank()
    &&& forall|k: int|
        0 <= k < parts.len() ==> {
            let part = #[trigger] parts[k];
            &&& part.0.wf()
            &&& part.0.rank() < n
            &&& is_set(keyframes, part.0)
            &&& lights_of(lights, binding, part.0) == Ok::<Seq<int>, Seq<char>>(part.1)
        }
    &&& forall|target: AnimTarget|
        target.wf() && target.rank() < n && #[trigger] is_set(keyframes, target) ==> exists|k: int|
            0 <= k < parts.len() && (#[trigger] parts[k]).0 == target
}

proof fn parts_are_exact(
    lights: Seq<LightSnapshot>,
    keyframes: Seq<Keyframe>,
    binding: TargetBinding,
    n: int,
)
    requires
        0 <= n <= 256,
    ensures
        match resolved(lights, keyframes, binding, n) {
            Ok(parts) => casts_below(parts, lights, keyframes, binding, n),
            Err(words) => exists|target: AnimTarget| #[trigger]
                is_first_missing(lights, keyframes, binding, target, words),
        },
    decreases n,
{
    if n > 0 {
        parts_are_exact(lights, keyframes, binding, n - 1);
        let new = target_at(n - 1);
        references_are_set(keyframes, new);
        assert(new.wf() && new.rank() == n - 1);
        match resolved(lights, keyframes, binding, n - 1) {
            Ok(head) => {
                assert forall|target: AnimTarget| #![trigger target.rank()]
                    target.wf() && target.rank() == n - 1 implies target == new by {}
                match resolved(lights, keyframes, binding, n) {
                    Ok(parts) => {
                        assert forall|target: AnimTarget|
                            target.wf() && target.rank() < n && #[trigger] is_set(
                                keyframes,
                                target,
                            ) implies exists|
                            k: int,
                        | 0 <= k < parts.len() && (#[trigger] parts[k]).0 == target by {
                            if target.rank() < n - 1 {
                                let k = choose|k: int|
                                    0 <= k < head.len() && (#[trigger] head[k]).0 == target;
                                assert(parts[k] == head[k]);
                            } else {
                                assert(target == new);
                                assert(parts[head.len() as int].0 == target);
                            }
                        }
                        assert forall|k: int| 0 <= k < parts.len() implies {
                            let part = #[trigger] parts[k];
                            &&& part.0.wf()
                            &&& part.0.rank() < n
                            &&& is_set(keyframes, part.0)
                            &&& lights_of(lights, binding, part.0) == Ok::<Seq<int>, Seq<char>>(
                                part.1,
                            )
                        } by {
                            if k < head.len() {
                                assert(parts[k] == head[k]);
                            }
                        }
                        assert forall|a: int, b: int| 0 <= a < b < parts.len() implies (
                        #[trigger] parts[a]).0.rank() < (#[trigger] parts[b]).0.rank() by {
                            assert(parts[a] == head[a]);
                            if b < head.len() {
                                assert(parts[b] == head[b]);
                            }
                        }
                    },
                    Err(words) => {
                        assert forall|other: AnimTarget|
                            other.wf() && #[trigger] is_set(keyframes, other) && other.rank()
                                < new.rank() implies lights_of(lights, binding, other) is Ok by {
                            let k = choose|k: int|
                                0 <= k < head.len() && (#[trigger] head[k]).0 == other;
                            assert(lights_of(lights, binding, head[k].0) is Ok);
                        }
                        assert(is_first_missing(lights, keyframes, binding, new, words));
                    },
                }
            },
            Err(_) => {},
        }
    }
}

/// A target that an animation sets has no lights, for the reason in words, and all that
/// come before it have some.
pub open spec fn is_first_missing(
    lights: Seq<LightSnapshot>,
    keyframes: Seq<Keyframe>,
    binding: TargetBinding,
    target: AnimTarget,
    words: Seq<char>,
) -> bool {
    &&& target.wf()
    &&& is_set(keyframes, target)
    &&& lights_of(lights, binding, target) == Err::<Seq<int>, Seq<char>>(words)
    &&& forall|other: AnimTarget|
        other.wf() && #[trigger] is_set(keyframes, other) && other.rank() < target.rank()
            ==> lights_of(
            lights,
            binding,
            other,
        ) is Ok
}

/// An animation is cast for exactly the targets that its keyframes set, all lights
/// before the slots and the slots in their order, each target with the lights that it
/// stands for. It cannot be played where it sets nothing, nor where one of its targets
/// has no lights; the first of those is named.
pub proof fn animations_are_cast_for_their_targets(
    lights: Seq<LightSnapshot>,
    keyframes: Seq<Keyframe>,
    binding: TargetBinding,
)
    ensures
        match resolution(lights, keyframes, binding) {
            Ok(parts) => {
                &&& parts.len() > 0
                &&& casts_below(parts, lights, keyframes, binding, 256)
            },
            Err(words) => {
                ||| exists|target: AnimTarget| #[trigger]
                    is_first_missing(lights, keyframes, binding, target, words)
                ||| {
                    &&& words == "animation has no resolvable light targets"@
                    &&& forall|target: AnimTarget|
                        target.wf() ==> !#[trigger] is_set(keyframes, target)
                }
            },
        },
{
    parts_are_exact(lights, keyframes, binding, 256);
    if forall|rank: int|
        0 <= rank < 256 ==> !references(keyframes, #[trigger] target_at(rank)) {
        assert(resolution(lights, keyframes, binding) == Err::<
            Seq<(AnimTarget, Seq<int>)>,
            Seq<char>,
        >("animation has no resolvable light targets"@));
        assert forall|target: AnimTarget| target.wf() implies !#[trigger] is_set(
            keyframes,
            target,
        ) by {
            assert(target == target_at(target.rank()));
            references_are_set(keyframes, target);
        }
    } else {
        let rank = choose|rank: int|
            0 <= rank < 256 && references(
                keyframes,
                #[trigger] target_at(rank),
            );
        let target = target_at(rank);
        references_are_set(keyframes, target);
        assert(resolution(lights, keyframes, binding) == resolved(
            lights,
            keyframes,
            binding,
            256,
        ));
        match resolution(lights, keyframes, binding) {
            Ok(parts) => {
                assert(target.wf() && target.rank() == rank);
                let k = choose|k: int| 0 <= k < parts.len() && (#[trigger] parts[k]).0 == target;
                assert(parts.len() > 0);
            },
            Err(_) => {},
        }
    }
}

proof fn reverts_are_exact(
    lights: Seq<LightSnapshot>,
    parts: Seq<(AnimTarget, Seq<int>)>,
    n: int,
)
    ensures
        forall|a: int, b: int|
            0 <= a < b < reverts(lights, parts, n).len() ==> (#[trigger] reverts(
                lights,
                parts,
                n,
            )[a]).0 < (#[trigger] reverts(lights, parts, n)[b]).0,
        forall|i: int, mode: Mode| #[trigger]
            reverts(lights, parts, n).contains((i, mode)) <==> 0 <= i < n && goes_back_to(
                lights,
                parts,
                i,
                mode,
            ),
    decreases n,
{
    if n > 0 {
        reverts_are_exact(lights, parts, n - 1);
        let head = reverts(lights, parts, n - 1);
        let all = reverts(lights, parts, n);
        assert forall|i: int, mode: Mode| #[trigger] all.contains((i, mode)) <==> 0 <= i < n
            && goes_back_to(lights, parts, i, mode) by {
            if head.contains((i, mode)) {
                let k = choose|k: int| 0 <= k < head.len() && head[k] == (i, mode);
                assert(all[k] == (i, mode));
            }
            if all.contains((i, mode)) && !head.contains((i, mode)) {
                let k = choose|k: int| 0 <= k < all.len() && all[k] == (i, mode);
                if k < head.len() {
                    assert(head[k] == (i, mode));
                }
            }
            if i == n - 1 && goes_back_to(lights, parts, i, mode) {
                assert(all[head.len() as int] == (i, mode));
            }
        }
        assert forall|a: int, b: int| 0 <= a < b < all.len() implies (#[trigger] all[a]).0 < (
        #[trigger] all[b]).0 by {
            assert(all[a] == head[a]);
            assert(head.contains((head[a].0, head[a].1)));
            if b < head.len() {
                assert(all[b] == head[b]);
            }
        }
    }
}

/// A light plays some part and had a mode: the one it confirmed, or else the one that was
/// desired of it.
pub open spec fn goes_back_to(
    lights: Seq<LightSnapshot>,
    parts: Seq<(AnimTarget, Seq<int>)>,
    i: int,
    mode: Mode,
) -> bool {
    &&& exists|k: int| 0 <= k < parts.len() && (#[trigger] parts[k]).1.contains(i)
    &&& lights[i].confirmed == Some(mode) || (lights[i].confirmed is None && lights[i].desired
        == Some(mode))
}

/// A playback that began plays the animation that was asked for, from the number that
/// was next on. It has leased exactly the lights that play a part, and each of them that
/// had a mode goes back to it in the end. A playback that was running is replaced, and
/// one event tells of the beginning.
pub proof fn playbacks_lease_the_lights_they_play(
    before: Registry,
    after: Registry,
    id: Seq<char>,
    options: PlaybackOptions,
    binding: TargetBinding,
    started_ms: u64,
    started: Started,
    i: int,
    mode: Mode,
)
    requires
        distinct(before.known()),
        began(before, after, id, options, binding, started_ms, started),
        0 <= i < before.known().len(),
    ensures
        ({
            let animation = before.animation_list()[started.animation as int];
            let parts = resolved_models(started.targets@);
            let lights = before.known();
            let plays = exists|k: int| 0 <= k < parts.len() && (#[trigger] parts[k]).1.contains(i);
            &&& started.animation < before.animation_list().len()
            &&& animation.id@ == id
            &&& started.status.animation == animation.id
            &&& started.status.name == animation.name
            &&& started.status.started_ms == started_ms
            &&& started.status.looping == match options.loop_override {
                Some(looping) => looping,
                None => animation.loop_default,
            }
            &&& resolution(lights, animation.keyframes@, binding) == Ok::<
                Seq<(AnimTarget, Seq<int>)>,
                Seq<char>,
            >(parts)
            &&& after.playing() matches Some(active) && {
                &&& active.playback_id == before.next_id()
                &&& active.status == started.status
                &&& (exists|k: int|
                    0 <= k < active.leased@.len() && (#[trigger] active.leased@[k])@
                        == lights[i].id@) <==> plays
            }
            &&& target_models(started.reverts@).contains((i, mode)) <==> goes_back_to(
                lights,
                parts,
                i,
                mode,
            )
            &&& started.replaced == match before.playing() {
                Some(active) => Some(active.playback_id),
                None => None,
            }
            &&& after.history().len() == before.history().len() + 1
            &&& after.history().drop_last() == before.history()
            &&& after.history().last().event == (Event::Playback {
                playback: Some(started.status),
            })
        }),
{
    let lights = before.known();
    let parts = resolved_models(started.targets@);
    reverts_are_exact(lights, parts, lights.len() as int);
    animation_is_first(before.animation_list(), id);
    assert(after.history().drop_last() =~= before.history());
    let active = after.playing()->0;
    assert(leased_by(active.leased@, lights[i].id@)
        <==> played_among(lights, parts, lights.len() as int, lights[i].id@));
    if played_among(lights, parts, lights.len() as int, lights[i].id@) {
        let j = choose|j: int|
            0 <= j < lights.len() && is_played(parts, j) && (
            #[trigger] lights[j]).id@ == lights[i].id@;
        assert(j == i);
    }
}

} // verus!
