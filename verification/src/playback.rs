//! Requests that concern playback: setting modes, playing and stopping.
use vstd::prelude::*;
use vstd::string::StringExecFns;
use crate::animation::{
    lookup, AnimTarget, Animation, AnimationId, Keyframe, PlaybackOptions, PlaybackStatus,
    SlotNumber, TargetBinding,
};
use crate::anim::loops;
use crate::id::LightId;
use crate::mode::Mode;
use crate::registry::{
    leased_by, light_event, places, playback_event, selected, selected_in_range, unknown_light,
    unknown_light_message, ActivePlayback, PlaybackFinishReason, Registry,
};
use crate::selector::Selector;
use crate::state::{ConnState, Event, LightSnapshot, SeqEvent};
use crate::text::{decimal, owned, push_decimal};
use crate::world::{find_light, fold};

verus! {

/// Lights with the modes that are desired of some of them, one after another.
pub open spec fn with_desired(
    lights: Seq<LightSnapshot>,
    targets: Seq<(int, Mode)>,
) -> Seq<LightSnapshot>
    decreases targets.len(),
{
    if targets.len() == 0 {
        lights
    } else {
        let before = with_desired(lights, targets.drop_last());
        let (i, mode) = targets.last();
        before.update(i, LightSnapshot { desired: Some(mode), ..before[i] })
    }
}

/// The events that announce desired modes, from a number on.
pub open spec fn desired_events(
    lights: Seq<LightSnapshot>,
    targets: Seq<(int, Mode)>,
    seq: int,
) -> Seq<SeqEvent>
    decreases targets.len(),
{
    if targets.len() == 0 {
        Seq::empty()
    } else {
        let (i, mode) = targets.last();
        desired_events(lights, targets.drop_last(), seq).push(
            light_event(
                seq + targets.len(),
                LightSnapshot {
                    desired: Some(mode),
                    ..with_desired(lights, targets.drop_last())[i]
                },
            ),
        )
    }
}

/// Targets with plain numbers.
pub open spec fn target_models(targets: Seq<(usize, Mode)>) -> Seq<(int, Mode)> {
    targets.map_values(|target: (usize, Mode)| (target.0 as int, target.1))
}

/// One of the targets is leased by the playback.
pub open spec fn touches_lease(
    lights: Seq<LightSnapshot>,
    targets: Seq<(int, Mode)>,
    playing: Option<ActivePlayback>,
) -> bool {
    playing matches Some(active) && exists|k: int|
        0 <= k < targets.len() && leased_by(
            active.leased@,
            lights[(#[trigger] targets[k]).0].id@,
        )
}

/// Targets are places of lights.
pub open spec fn in_range(targets: Seq<(int, Mode)>, n: int) -> bool {
    forall|k: int| 0 <= k < targets.len() ==> 0 <= (#[trigger] targets[k]).0 < n
}

/// Lights that only have other desired modes are the same lights.
pub proof fn desired_keeps_lights(lights: Seq<LightSnapshot>, targets: Seq<(int, Mode)>)
    requires
        in_range(targets, lights.len() as int),
    ensures
        with_desired(lights, targets).len() == lights.len(),
        forall|i: int|
            0 <= i < lights.len() ==> (#[trigger] with_desired(lights, targets)[i]) == (
            LightSnapshot { desired: with_desired(lights, targets)[i].desired, ..lights[i] }),
    decreases targets.len(),
{
    if targets.len() > 0 {
        let rest = targets.drop_last();
        assert forall|k: int| 0 <= k < rest.len() implies 0 <= (#[trigger] rest[k]).0
            < lights.len() by {
            assert(rest[k] == targets[k]);
        }
        desired_keeps_lights(lights, rest);
        let before = with_desired(lights, rest);
        let after = with_desired(lights, targets);
        assert(0 <= targets.last().0 < lights.len()) by {
            assert(targets[targets.len() - 1] == targets.last());
        }
        assert forall|i: int| 0 <= i < lights.len() implies (#[trigger] after[i]) == (
        LightSnapshot { desired: after[i].desired, ..lights[i] }) by {
            assert(before[i] == (LightSnapshot { desired: before[i].desired, ..lights[i] }));
        }
    }
}

/// The connected ones among the first `n` selected lights, in order.
pub open spec fn connected_among(lights: Seq<LightSnapshot>, chosen: Seq<int>, n: int) -> Seq<int>
    decreases n,
{
    if n <= 0 {
        Seq::empty()
    } else {
        let head = connected_among(lights, chosen, n - 1);
        if lights[chosen[n - 1]].conn == ConnState::Connected {
            head.push(chosen[n - 1])
        } else {
            head
        }
    }
}

/// The lights that a binding stands for when an animation targets all: the
/// connected ones among those that it selects.
pub open spec fn bound_lights(lights: Seq<LightSnapshot>, binding: TargetBinding) -> Seq<int> {
    let chosen = selected(lights, binding.all, lights.len() as int);
    connected_among(lights, chosen, chosen.len() as int)
}

/// The target with a place in the order of targets.
pub open(crate) spec fn target_at(rank: int) -> AnimTarget {
    if rank == 0 {
        AnimTarget::All
    } else {
        AnimTarget::Slot(SlotNumber::of(rank))
    }
}

/// A keyframe names a target.
pub open spec fn names(keyframe: Keyframe, target: AnimTarget) -> bool {
    lookup(keyframe.lights@, target) is Some
}

/// An animation names a target.
pub open spec fn references(keyframes: Seq<Keyframe>, target: AnimTarget) -> bool {
    exists|k: int| 0 <= k < keyframes.len() && names(#[trigger] keyframes[k], target)
}

/// The lights that a target stands for, or why there are none. All lights
/// together are those that the binding selects and that are connected. A slot is
/// the light that the binding gives it; a slot without one takes turns with the
/// others through the lights that stand for all.
pub open spec fn lights_of(
    lights: Seq<LightSnapshot>,
    binding: TargetBinding,
    target: AnimTarget,
) -> Result<Seq<int>, Seq<char>> {
    let all = bound_lights(lights, binding);
    match target {
        AnimTarget::All => if all.len() == 0 {
            Err("target All resolved to no connected lights"@)
        } else {
            Ok(all)
        },
        AnimTarget::Slot(slot) => if slot@ - 1 < binding.slots@.len() {
            let id = binding.slots@[slot@ - 1];
            let i = find_light(lights, id@);
            if i < lights.len() && lights[i].conn == ConnState::Connected {
                Ok(seq![i])
            } else {
                Err(
                    "slot "@ + decimal(slot@ as nat) + " light "@ + id@ + " is not connected"@,
                )
            }
        } else if all.len() == 0 {
            Err(
                "slot "@ + decimal(slot@ as nat)
                    + " cannot resolve because no lights are connected"@,
            )
        } else {
            Ok(seq![all[(slot@ - 1) % all.len() as int]])
        },
    }
}

/// The lights of the targets that an animation names, in the order of the first
/// `n` targets, or why the first of them that has none has none.
pub open(crate) spec fn resolved(
    lights: Seq<LightSnapshot>,
    keyframes: Seq<Keyframe>,
    binding: TargetBinding,
    n: int,
) -> Result<Seq<(AnimTarget, Seq<int>)>, Seq<char>>
    decreases n,
{
    if n <= 0 {
        Ok(Seq::empty())
    } else {
        match resolved(lights, keyframes, binding, n - 1) {
            Err(error) => Err(error),
            Ok(head) => if !references(keyframes, target_at(n - 1)) {
                Ok(head)
            } else {
                match lights_of(lights, binding, target_at(n - 1)) {
                    Ok(chosen) => Ok(head.push((target_at(n - 1), chosen))),
                    Err(error) => Err(error),
                }
            },
        }
    }
}

/// The lights of the targets that an animation names, or why it cannot be played.
pub open(crate) spec fn resolution(
    lights: Seq<LightSnapshot>,
    keyframes: Seq<Keyframe>,
    binding: TargetBinding,
) -> Result<Seq<(AnimTarget, Seq<int>)>, Seq<char>> {
    if forall|rank: int|
        0 <= rank < 256 ==> !references(keyframes, #[trigger] target_at(rank)) {
        Err("animation has no resolvable light targets"@)
    } else {
        resolved(lights, keyframes, binding, 256)
    }
}

/// Positions below a number.
pub open spec fn below(indices: Seq<usize>, n: int) -> bool {
    forall|i: int| 0 <= i < indices.len() ==> (#[trigger] indices[i]) < n
}

/// Resolved targets with plain numbers.
pub open spec fn resolved_models(targets: Seq<(AnimTarget, Vec<usize>)>) -> Seq<
    (AnimTarget, Seq<int>),
> {
    targets.map_values(|target: (AnimTarget, Vec<usize>)| (target.0, places(target.1@)))
}

/// A light stands for one of the targets.
pub open spec fn is_played(targets: Seq<(AnimTarget, Seq<int>)>, i: int) -> bool {
    exists|k: int| 0 <= k < targets.len() && (#[trigger] targets[k]).1.contains(i)
}

/// The mode that a light goes back to: the one that it confirmed, else the one that
/// is desired of it.
pub open spec fn current_mode(light: LightSnapshot) -> Option<Mode> {
    match light.confirmed {
        Some(mode) => Some(mode),
        None => light.desired,
    }
}

/// The modes that the played ones among the first `n` lights return to.
pub open spec fn reverts(
    lights: Seq<LightSnapshot>,
    targets: Seq<(AnimTarget, Seq<int>)>,
    n: int,
) -> Seq<(int, Mode)>
    decreases n,
{
    if n <= 0 {
        Seq::empty()
    } else {
        let head = reverts(lights, targets, n - 1);
        match current_mode(lights[n - 1]) {
            Some(mode) => if is_played(targets, n - 1) {
                head.push((n - 1, mode))
            } else {
                head
            },
            None => head,
        }
    }
}

/// The place of the first animation with an identifier, or the number of
/// animations.
pub open spec fn find_animation(animations: Seq<Animation>, id: Seq<char>) -> int
    decreases animations.len(),
{
    if animations.len() == 0 {
        0
    } else if animations[0].id@ == id {
        0
    } else {
        1 + find_animation(animations.drop_first(), id)
    }
}

/// The animation with an identifier is the first that has it, if one has it.
pub proof fn animation_is_first(animations: Seq<Animation>, id: Seq<char>)
    ensures
        0 <= find_animation(animations, id) <= animations.len(),
        find_animation(animations, id) < animations.len() ==> animations[find_animation(
            animations,
            id,
        )].id@ == id,
        forall|j: int|
            0 <= j < find_animation(animations, id) ==> (#[trigger] animations[j]).id@ != id,
    decreases animations.len(),
{
    if animations.len() > 0 && animations[0].id@ != id {
        let rest = animations.drop_first();
        animation_is_first(rest, id);
        assert forall|j: int| 0 <= j < find_animation(animations, id) implies (
        #[trigger] animations[j]).id@ != id by {
            if j > 0 {
                assert(rest[j - 1] == animations[j]);
            }
        }
    }
}

proof fn animation_at(animations: Seq<Animation>, id: Seq<char>, i: int)
    requires
        0 <= i <= animations.len(),
        i < animations.len() ==> animations[i].id@ == id,
        forall|j: int| 0 <= j < i ==> (#[trigger] animations[j]).id@ != id,
    ensures
        find_animation(animations, id) == i,
    decreases animations.len(),
{
    if i > 0 {
        let rest = animations.drop_first();
        assert(animations[0].id@ != id);
        assert forall|j: int| 0 <= j < i - 1 implies (#[trigger] rest[j]).id@ != id by {
            assert(rest[j] == animations[j + 1]);
        }
        animation_at(rest, id, i - 1);
    }
}

/// A playback that has begun.
#[derive(Debug)]
pub struct Started {
    /// The number of the playback.
    pub playback_id: u64,
    /// The place of the animation.
    pub animation: usize,
    /// What clients are told of the playback.
    pub status: PlaybackStatus,
    /// The lights of each target.
    pub targets: Vec<(AnimTarget, Vec<usize>)>,
    /// The modes that the lights return to when the playback is over.
    pub reverts: Vec<(usize, Mode)>,
    /// The number of the playback that has to be stopped first.
    pub replaced: Option<u64>,
}

fn capture_mode(light: &LightSnapshot) -> (r: Option<Mode>)
    ensures
        r == current_mode(*light),
{
    match light.confirmed {
        Some(mode) => Some(mode),
        None => light.desired,
    }
}

fn slot_message(slot: u8) -> (r: String)
    ensures
        r@ == "slot "@ + decimal(slot as nat),
{
    let mut text = owned("slot ");
    push_decimal(&mut text, slot as u64);
    text
}

fn one(index: usize) -> (r: Vec<usize>)
    ensures
        places(r@) == seq![index as int],
        r@.len() == 1,
        r@[0] == index,
{
    let mut r: Vec<usize> = Vec::new();
    r.push(index);
    assert(places(r@) =~= seq![index as int]);
    r
}

fn copy_places(indices: &Vec<usize>) -> (r: Vec<usize>)
    ensures
        r@ == indices@,
{
    let mut r: Vec<usize> = Vec::new();
    let mut i: usize = 0;
    while i < indices.len()
        invariant
            i <= indices@.len(),
            r@ == indices@.take(i as int),
        decreases indices.len() - i,
    {
        r.push(indices[i]);
        assert(indices@.take(i + 1) =~= indices@.take(i as int).push(indices@[i as int]));
        i += 1;
    }
    assert(indices@.take(i as int) =~= indices@);
    r
}

fn refers_to(animation: &Animation, target: AnimTarget) -> (r: bool)
    ensures
        r == references(animation.keyframes@, target),
{
    let mut k: usize = 0;
    while k < animation.keyframes.len()
        invariant
            k <= animation.keyframes@.len(),
            forall|j: int|
                0 <= j < k ==> !names(#[trigger] animation.keyframes@[j], target),
        decreases animation.keyframes.len() - k,
    {
        if animation.keyframes[k].lights.get(target).is_some() {
            assert(names(animation.keyframes@[k as int], target));
            return true;
        }
        k += 1;
    }
    false
}

fn target_with(rank: usize) -> (r: AnimTarget)
    requires
        rank < 256,
    ensures
        r == target_at(rank as int),
{
    if rank == 0 {
        AnimTarget::All
    } else {
        AnimTarget::Slot(SlotNumber(rank as u8))
    }
}

/// The resolution of the first `n` targets does not fail where that of more does
/// not.
proof fn errors_persist(
    lights: Seq<LightSnapshot>,
    keyframes: Seq<Keyframe>,
    binding: TargetBinding,
    k: int,
    n: int,
)
    requires
        0 <= k <= n,
        resolved(lights, keyframes, binding, k) is Err,
    ensures
        resolved(lights, keyframes, binding, n) == resolved(lights, keyframes, binding, k),
    decreases n - k,
{
    if k < n {
        errors_persist(lights, keyframes, binding, k, n - 1);
    }
}

impl Registry {
    /// Ends the playback that is running, and publishes that. Returns the number
    /// of the playback that has to be stopped.
    pub fn cancel_active(&mut self) -> (r: Option<u64>)
        requires
            old(self).wf(),
            old(self).shown().seq < u64::MAX,
        ensures
            final(self).wf(),
            final(self).known() == old(self).known(),
            final(self).label_book() == old(self).label_book(),
            final(self).same_library(*old(self)),
            match old(self).playing() {
                Some(active) => {
                    &&& r == Some(active.playback_id)
                    &&& final(self).playing() is None
                    &&& final(self).history() == old(self).history().push(
                        playback_event(old(self).shown().seq + 1, None),
                    )
                },
                None => r is None && *final(self) == *old(self),
            },
    {
        match self.active.take() {
            Some(active) => {
                self.record(Event::Playback { playback: None });
                proof {
                    assert(self.log@.drop_last() =~= old(self).log@);
                    assert(self.shown() =~= fold(old(self).shown(), self.log@.last()));
                }
                Some(active.playback_id)
            },
            None => None,
        }
    }

    /// Takes note that a playback is over by itself or was stopped. One that has
    /// been replaced since is none of the registry's business any more.
    pub fn playback_finished(&mut self, playback_id: u64, reason: PlaybackFinishReason)
        requires
            old(self).wf(),
            old(self).room(),
        ensures
            final(self).wf(),
            final(self).known() == old(self).known(),
            final(self).label_book() == old(self).label_book(),
            final(self).same_library(*old(self)),
            if (old(self).playing() matches Some(active) && active.playback_id == playback_id)
                && !(reason is Chained) {
                &&& final(self).playing() is None
                &&& final(self).history() == old(self).history().push(
                    playback_event(old(self).shown().seq + 1, None),
                )
            } else {
                *final(self) == *old(self)
            },
    {
        let current = match &self.active {
            Some(active) => active.playback_id == playback_id,
            None => false,
        };
        if current && reason != PlaybackFinishReason::Chained {
            let _ = self.cancel_active();
        }
    }

    /// Takes note of the modes that are desired of some lights, and publishes
    /// them. A playback that has leased one of the lights ends first; its number
    /// is returned, for it has to be stopped.
    pub fn begin_modes(&mut self, targets: &Vec<(usize, Mode)>) -> (r: Option<u64>)
        requires
            old(self).wf(),
            in_range(target_models(targets@), old(self).known().len() as int),
            old(self).shown().seq + targets@.len() + 1 <= u64::MAX,
        ensures
            final(self).wf(),
            final(self).label_book() == old(self).label_book(),
            final(self).same_library(*old(self)),
            final(self).known() == with_desired(old(self).known(), target_models(targets@)),
            ({
                let seq = old(self).shown().seq;
                let models = target_models(targets@);
                if touches_lease(old(self).known(), models, old(self).playing()) {
                    &&& r == Some(old(self).playing()->0.playback_id)
                    &&& final(self).playing() is None
                    &&& final(self).history() == old(self).history().push(
                        playback_event(seq + 1, None),
                    ) + desired_events(old(self).known(), models, seq + 1)
                } else {
                    &&& r is None
                    &&& final(self).playing() == old(self).playing()
                    &&& final(self).history() == old(self).history() + desired_events(
                        old(self).known(),
                        models,
                        seq,
                    )
                }
            }),
    {
        let ghost models = target_models(targets@);
        let ghost known = self.known();
        let mut leased = false;
        let mut k: usize = 0;
        while k < targets.len()
            invariant
                k <= targets@.len(),
                models == target_models(targets@),
                in_range(models, self.lights@.len() as int),
                leased == (self.playing() matches Some(active) && exists|j: int|
                    0 <= j < k && leased_by(
                        active.leased@,
                        self.lights@[(#[trigger] models[j]).0].id@,
                    )),
            decreases targets.len() - k,
        {
            assert(models[k as int].0 == targets@[k as int].0);
            if self.active_leases(&self.lights[targets[k].0].id) {
                leased = true;
            }
            k += 1;
        }
        assert(leased == touches_lease(known, models, old(self).playing()));
        let cancelled = if leased {
            self.cancel_active()
        } else {
            None
        };
        let ghost middle = *self;
        let mut k: usize = 0;
        assert(models.take(0) =~= Seq::<(int, Mode)>::empty());
        assert(middle.log@ + desired_events(known, models.take(0), middle.seq as int)
            =~= middle.log@);
        while k < targets.len()
            invariant
                k <= targets@.len(),
                models == target_models(targets@),
                in_range(models, known.len() as int),
                self.wf(),
                self.labels == middle.labels,
                self.active == middle.active,
                self.same_library(middle),
                middle.lights@ == known,
                middle.seq + targets@.len() <= u64::MAX,
                self.seq == middle.seq + k,
                self.lights@ == with_desired(known, models.take(k as int)),
                self.log@ == middle.log@ + desired_events(
                    known,
                    models.take(k as int),
                    middle.seq as int,
                ),
            decreases targets.len() - k,
        {
            let (index, mode) = targets[k];
            proof {
                assert(models[k as int] == (index as int, mode));
                assert(models.take(k + 1).drop_last() =~= models.take(k as int));
                assert forall|j: int| 0 <= j < k implies 0 <= (
                #[trigger] models.take(k as int)[j]).0 < known.len() by {
                    assert(models.take(k as int)[j] == models[j]);
                }
                desired_keeps_lights(known, models.take(k as int));
            }
            let mut light = self.lights[index].clone();
            light.desired = Some(mode);
            let ghost before = self.log@;
            self.update(index, light);
            assert(self.log@ =~= middle.log@ + desired_events(
                known,
                models.take(k + 1),
                middle.seq as int,
            ));
            k += 1;
        }
        assert(models.take(k as int) =~= models);
        cancelled
    }

    /// Takes note of a mode that is desired of the selected lights. Returns the
    /// lights that have to be told, and the playback that has to be stopped first.
    pub fn set_mode(&mut self, selector: &Selector, mode: Mode) -> (r: (
        Vec<(usize, Mode)>,
        Option<u64>,
    ))
        requires
            old(self).wf(),
            old(self).room(),
        ensures
            final(self).wf(),
            final(self).label_book() == old(self).label_book(),
            final(self).same_library(*old(self)),
            ({
                let known = old(self).known();
                let chosen = selected(known, *selector, known.len() as int);
                let models = chosen.map_values(|i: int| (i, mode));
                let seq = old(self).shown().seq;
                &&& target_models(r.0@) == models
                &&& final(self).known() == with_desired(known, models)
                &&& if touches_lease(known, models, old(self).playing()) {
                    &&& r.1 == Some(old(self).playing()->0.playback_id)
                    &&& final(self).playing() is None
                    &&& final(self).history() == old(self).history().push(
                        playback_event(seq + 1, None),
                    ) + desired_events(known, models, seq + 1)
                } else {
                    &&& r.1 is None
                    &&& final(self).playing() == old(self).playing()
                    &&& final(self).history() == old(self).history() + desired_events(
                        known,
                        models,
                        seq,
                    )
                }
            }),
    {
        let indices = self.target_indices(selector);
        let ghost known = self.known();
        let ghost chosen = selected(known, *selector, known.len() as int);
        let ghost models = chosen.map_values(|i: int| (i, mode));
        let mut targets: Vec<(usize, Mode)> = Vec::new();
        let mut k: usize = 0;
        while k < indices.len()
            invariant
                k <= indices@.len(),
                targets@.len() == k,
                forall|j: int| 0 <= j < k ==> #[trigger] targets@[j] == (indices@[j], mode),
            decreases indices.len() - k,
        {
            targets.push((indices[k], mode));
            k += 1;
        }
        proof {
            assert forall|j: int| 0 <= j < targets@.len() implies target_models(targets@)[j]
                == models[j] by {
                assert(places(indices@)[j] == indices@[j]);
            }
            assert(target_models(targets@) =~= models);
            selected_in_range(known, *selector, known.len() as int);
            selected_is_short(known, *selector, known.len() as int);
            assert forall|j: int| 0 <= j < models.len() implies 0 <= (#[trigger] models[j]).0
                < known.len() by {
                assert(chosen[j] == models[j].0);
            }
        }
        let cancelled = self.begin_modes(&targets);
        (targets, cancelled)
    }

    /// Takes a request to connect a light. A playback that has leased the light
    /// ends; its number is returned, for it has to be stopped.
    pub fn begin_connect(&mut self, id: &LightId) -> (r: (Option<u64>, Result<usize, String>))
        requires
            old(self).wf(),
            old(self).room(),
        ensures
            final(self).wf(),
            final(self).known() == old(self).known(),
            final(self).label_book() == old(self).label_book(),
            final(self).same_library(*old(self)),
            if old(self).playing() matches Some(active) && leased_by(active.leased@, id@) {
                &&& r.0 == Some(old(self).playing()->0.playback_id)
                &&& final(self).playing() is None
                &&& final(self).history() == old(self).history().push(
                    playback_event(old(self).shown().seq + 1, None),
                )
            } else {
                r.0 is None && *final(self) == *old(self)
            },
            match r.1 {
                Ok(i) => i == find_light(old(self).known(), id@) && i < old(self).known().len(),
                Err(message) => find_light(old(self).known(), id@) == old(self).known().len()
                    && message@ == unknown_light(id@),
            },
    {
        let cancelled = if self.active_leases(id) {
            self.cancel_active()
        } else {
            None
        };
        (cancelled, self.find(id))
    }

    /// Finds a light. Fails for one that is not known.
    pub fn find(&self, id: &LightId) -> (r: Result<usize, String>)
        ensures
            match r {
                Ok(i) => i == find_light(self.known(), id@) && i < self.known().len(),
                Err(message) => find_light(self.known(), id@) == self.known().len() && message@
                    == unknown_light(id@),
            },
    {
        match self.index_of(id) {
            Some(index) => Ok(index),
            None => Err(unknown_light_message(id)),
        }
    }

    fn bound(&self, binding: &TargetBinding) -> (r: Vec<usize>)
        ensures
            places(r@) == bound_lights(self.known(), *binding),
            forall|i: int| 0 <= i < r@.len() ==> (#[trigger] r@[i]) < self.known().len(),
    {
        let indices = self.target_indices(&binding.all);
        let ghost chosen = selected(self.known(), binding.all, self.known().len() as int);
        let mut r: Vec<usize> = Vec::new();
        let mut k: usize = 0;
        while k < indices.len()
            invariant
                k <= indices@.len(),
                places(indices@) == chosen,
                forall|i: int| 0 <= i < indices@.len() ==> (#[trigger] indices@[i])
                    < self.lights@.len(),
                forall|i: int| 0 <= i < r@.len() ==> (#[trigger] r@[i]) < self.lights@.len(),
                places(r@) == connected_among(self.lights@, chosen, k as int),
            decreases indices.len() - k,
        {
            let index: usize = indices[k];
            assert(chosen[k as int] == index);
            if self.lights[index].conn == ConnState::Connected {
                let ghost before = r@;
                r.push(index);
                assert(places(r@) =~= places(before).push(index as int));
            }
            k += 1;
        }
        r
    }

    fn resolve_target(&self, binding: &TargetBinding, all: &Vec<usize>, target: AnimTarget) -> (r:
        Result<Vec<usize>, String>)
        requires
            places(all@) == bound_lights(self.known(), *binding),
            forall|i: int| 0 <= i < all@.len() ==> (#[trigger] all@[i]) < self.known().len(),
        ensures
            match r {
                Ok(chosen) => {
                    &&& lights_of(self.known(), *binding, target) == Ok::<Seq<int>, Seq<char>>(
                        places(chosen@),
                    )
                    &&& below(chosen@, self.known().len() as int)
                },
                Err(message) => lights_of(self.known(), *binding, target) == Err::<
                    Seq<int>,
                    Seq<char>,
                >(message@),
            },
    {
        assert(bound_lights(self.known(), *binding).len() == all@.len());
        match target {
            AnimTarget::All => if all.len() == 0 {
                Err(owned("target All resolved to no connected lights"))
            } else {
                Ok(copy_places(all))
            },
            AnimTarget::Slot(slot) => {
                let number: u8 = slot.get();
                let place: usize = (number - 1) as usize;
                if place < binding.slots.len() {
                    let id = &binding.slots[place];
                    match self.index_of(id) {
                        Some(index) => {
                            if self.lights[index].conn == ConnState::Connected {
                                return Ok(one(index));
                            }
                        },
                        None => {},
                    }
                    let mut text = slot_message(number);
                    text.append(" light ");
                    text.append(id.as_str());
                    text.append(" is not connected");
                    Err(text)
                } else if all.len() == 0 {
                    let mut text = slot_message(number);
                    text.append(" cannot resolve because no lights are connected");
                    Err(text)
                } else {
                    let turn: usize = place % all.len();
                    assert(places(all@)[turn as int] == all@[turn as int]);
                    Ok(one(all[turn]))
                }
            },
        }
    }

    /// Finds the lights of the targets that an animation names, or says why it
    /// cannot be played.
    pub fn resolve_animation_targets(&self, animation: &Animation, binding: &TargetBinding) -> (r:
        Result<Vec<(AnimTarget, Vec<usize>)>, String>)
        ensures
            match r {
                Ok(targets) => {
                    &&& resolution(self.known(), animation.keyframes@, *binding) == Ok::<
                        Seq<(AnimTarget, Seq<int>)>,
                        Seq<char>,
                    >(resolved_models(targets@))
                    &&& forall|k: int|
                        0 <= k < targets@.len() ==> below(
                            (#[trigger] targets@[k]).1@,
                            self.known().len() as int,
                        )
                },
                Err(message) => resolution(self.known(), animation.keyframes@, *binding) == Err::<
                    Seq<(AnimTarget, Seq<int>)>,
                    Seq<char>,
                >(message@),
            },
    {
        let all = self.bound(binding);
        let ghost keyframes = animation.keyframes@;
        let ghost known = self.known();
        let mut targets: Vec<(AnimTarget, Vec<usize>)> = Vec::new();
        let mut found = false;
        let mut rank: usize = 0;
        assert(resolved_models(targets@) =~= Seq::<(AnimTarget, Seq<int>)>::empty());
        while rank < 256
            invariant
                rank <= 256,
                keyframes == animation.keyframes@,
                known == self.known(),
                places(all@) == bound_lights(known, *binding),
                forall|i: int| 0 <= i < all@.len() ==> (#[trigger] all@[i]) < known.len(),
                found == exists|k: int|
                    0 <= k < rank && references(keyframes, #[trigger] target_at(k)),
                resolved(known, keyframes, *binding, rank as int) == Ok::<
                    Seq<(AnimTarget, Seq<int>)>,
                    Seq<char>,
                >(resolved_models(targets@)),
                forall|k: int|
                    0 <= k < targets@.len() ==> below(
                        (#[trigger] targets@[k]).1@,
                        known.len() as int,
                    ),
            decreases 256 - rank,
        {
            let target = target_with(rank);
            if refers_to(animation, target) {
                found = true;
                assert(references(keyframes, target_at(rank as int)));
                match self.resolve_target(binding, &all, target) {
                    Ok(chosen) => {
                        let ghost before = targets@;
                        targets.push((target, chosen));
                        assert(resolved_models(targets@) =~= resolved_models(before).push(
                            (target, places(chosen@)),
                        ));
                    },
                    Err(message) => {
                        proof {
                            errors_persist(known, keyframes, *binding, rank + 1, 256);
                        }
                        return Err(message);
                    },
                }
            }
            rank += 1;
        }
        if !found {
            assert(forall|rank: int|
                0 <= rank < 256 ==> !references(keyframes, #[trigger] target_at(rank)));
            return Err(owned("animation has no resolvable light targets"));
        }
        proof {
            let k = choose|k: int| 0 <= k < rank && references(keyframes, #[trigger] target_at(k));
            assert(0 <= k < 256 && references(keyframes, target_at(k)));
        }
        Ok(targets)
    }

    /// The place of the animation with an identifier.
    pub fn animation_index(&self, id: &AnimationId) -> (r: Option<usize>)
        ensures
            match r {
                Some(i) => i == find_animation(self.animation_list(), id@) && i
                    < self.animation_list().len() && self.animation_list()[i as int].id@ == id@,
                None => find_animation(self.animation_list(), id@) == self.animation_list().len(),
            },
    {
        let mut i: usize = 0;
        while i < self.animations.len()
            invariant
                i <= self.animations@.len(),
                forall|j: int| 0 <= j < i ==> (#[trigger] self.animations@[j]).id@ != id@,
            decreases self.animations.len() - i,
        {
            if self.animations[i].id.same(id) {
                proof {
                    animation_at(self.animations@, id@, i as int);
                }
                return Some(i);
            }
            i += 1;
        }
        proof {
            animation_at(self.animations@, id@, i as int);
        }
        None
    }
}

/// The words for an animation that is not known.
pub open spec fn unknown_animation(id: Seq<char>) -> Seq<char> {
    "animation "@ + id + " was not found"@
}

/// The first reason for which an animation cannot be played, if there is one.
pub open(crate) spec fn refusal(
    registry: Registry,
    id: Seq<char>,
    options: PlaybackOptions,
    binding: TargetBinding,
) -> Option<Seq<char>> {
    let animations = registry.animation_list();
    let i = find_animation(animations, id);
    if !options.wf() {
        Some(options.fault())
    } else if i == animations.len() {
        Some(unknown_animation(id))
    } else {
        match resolution(registry.known(), animations[i].keyframes@, binding) {
            Ok(_) => None,
            Err(message) => Some(message),
        }
    }
}

/// One of the first `n` lights has an identifier and stands for some target.
pub open spec fn played_among(
    lights: Seq<LightSnapshot>,
    targets: Seq<(AnimTarget, Seq<int>)>,
    n: int,
    id: Seq<char>,
) -> bool {
    exists|i: int| 0 <= i < n && is_played(targets, i) && (#[trigger] lights[i]).id@ == id
}

/// The lights that stand for some target are leased, and no others.
pub open spec fn leases_exactly(
    leased: Seq<LightId>,
    lights: Seq<LightSnapshot>,
    targets: Seq<(AnimTarget, Seq<int>)>,
) -> bool {
    forall|id: Seq<char>| #[trigger]
        leased_by(leased, id) <==> played_among(lights, targets, lights.len() as int, id)
}

/// A playback began: the animation can be played, the playback has the next
/// number, its status names the animation, its targets are resolved, the lights
/// that stand for them are leased and go back to their modes in the end, a
/// playback that was running is replaced, and the beginning was published.
pub open(crate) spec fn began(
    before: Registry,
    after: Registry,
    id: Seq<char>,
    options: PlaybackOptions,
    binding: TargetBinding,
    started_ms: u64,
    started: Started,
) -> bool {
    let known = before.known();
    let animations = before.animation_list();
    let animation = animations[find_animation(animations, id)];
    let targets = resolved_models(started.targets@);
    &&& refusal(before, id, options, binding) is None
    &&& started.animation == find_animation(animations, id)
    &&& started.animation < animations.len()
    &&& started.playback_id == before.next_id()
    &&& after.next_id() == before.next_id().wrapping_add(1)
    &&& started.status == (PlaybackStatus {
        animation: animation.id,
        name: animation.name,
        started_ms,
        looping: loops(animation, options),
    })
    &&& resolution(known, animation.keyframes@, binding) == Ok::<
        Seq<(AnimTarget, Seq<int>)>,
        Seq<char>,
    >(targets)
    &&& target_models(started.reverts@) == reverts(known, targets, known.len() as int)
    &&& started.replaced == match before.playing() {
        Some(active) => Some(active.playback_id),
        None => None,
    }
    &&& after.playing() matches Some(active) && {
        &&& active.playback_id == started.playback_id
        &&& active.status == started.status
        &&& leases_exactly(active.leased@, known, targets)
    }
    &&& after.history() == before.history().push(
        playback_event(before.shown().seq + 1, Some(started.status)),
    )
}

fn plays(targets: &Vec<(AnimTarget, Vec<usize>)>, index: usize) -> (r: bool)
    ensures
        r == is_played(resolved_models(targets@), index as int),
{
    let ghost models = resolved_models(targets@);
    let mut k: usize = 0;
    while k < targets.len()
        invariant
            k <= targets@.len(),
            models == resolved_models(targets@),
            forall|j: int| 0 <= j < k ==> !(#[trigger] models[j]).1.contains(index as int),
        decreases targets.len() - k,
    {
        let chosen = &targets[k].1;
        let mut i: usize = 0;
        while i < chosen.len()
            invariant
                i <= chosen@.len(),
                k < targets@.len(),
                models == resolved_models(targets@),
                *chosen == targets@[k as int].1,
                forall|j: int| 0 <= j < i ==> #[trigger] chosen@[j] != index,
            decreases chosen.len() - i,
        {
            if chosen[i] == index {
                proof {
                    assert(models[k as int].1 == places(chosen@));
                    assert(places(chosen@)[i as int] == index);
                    assert(models[k as int].1.contains(index as int));
                }
                return true;
            }
            i += 1;
        }
        assert(!models[k as int].1.contains(index as int)) by {
            if models[k as int].1.contains(index as int) {
                let j = choose|j: int|
                    0 <= j < places(chosen@).len() && places(chosen@)[j] == index;
                assert(chosen@[j] == index);
            }
        }
        k += 1;
    }
    false
}

impl Registry {
    /// Starts an animation after resolving its target binding once. A playback
    /// that is running is replaced; its number is returned with the new one.
    pub fn play(
        &mut self,
        id: &AnimationId,
        options: &PlaybackOptions,
        binding: &TargetBinding,
        started_ms: u64,
    ) -> (r: Result<Started, String>)
        requires
            old(self).wf(),
            old(self).room(),
        ensures
            final(self).wf(),
            final(self).known() == old(self).known(),
            final(self).label_book() == old(self).label_book(),
            final(self).animation_list() == old(self).animation_list(),
            final(self).preset_list() == old(self).preset_list(),
            match r {
                Ok(started) => began(
                    *old(self),
                    *final(self),
                    id@,
                    *options,
                    *binding,
                    started_ms,
                    started,
                ),
                Err(message) => refusal(*old(self), id@, *options, *binding) == Some(message@)
                    && *final(self) == *old(self),
            },
    {
        if let Err(message) = options.validate() {
            return Err(message);
        }
        let index = match self.animation_index(id) {
            Some(index) => index,
            None => {
                let mut text = owned("animation ");
                text.append(id.as_str());
                text.append(" was not found");
                return Err(text);
            },
        };
        let animation = &self.animations[index];
        let targets = match self.resolve_animation_targets(animation, binding) {
            Ok(targets) => targets,
            Err(message) => {
                return Err(message);
            },
        };
        let looping = match options.loop_override {
            Some(looping) => looping,
            None => animation.loop_default,
        };
        let status = PlaybackStatus {
            animation: animation.id.clone(),
            name: animation.name.clone(),
            started_ms,
            looping,
        };
        let ghost models = resolved_models(targets@);
        let ghost known = self.known();
        let mut leased: Vec<LightId> = Vec::new();
        let mut going_back: Vec<(usize, Mode)> = Vec::new();
        let mut i: usize = 0;
        assert(target_models(going_back@) =~= Seq::<(int, Mode)>::empty());
        while i < self.lights.len()
            invariant
                i <= self.lights@.len(),
                known == self.lights@,
                models == resolved_models(targets@),
                target_models(going_back@) == reverts(known, models, i as int),
                forall|id: Seq<char>| #[trigger]
                    leased_by(leased@, id) <==> played_among(known, models, i as int, id),
            decreases self.lights.len() - i,
        {
            let ghost before = leased@;
            if plays(&targets, i) {
                leased.push(self.lights[i].id.clone());
                proof {
                    let n = before.len() as int;
                    assert(leased@[n]@ == known[i as int].id@);
                    assert forall|id: Seq<char>| #[trigger] leased_by(leased@, id)
                        <==> played_among(known, models, i + 1, id) by {
                        if leased_by(leased@, id) {
                            let k = choose|k: int|
                                0 <= k < leased@.len() && (#[trigger] leased@[k])@ == id;
                            if k < n {
                                assert(before[k]@ == id);
                                assert(leased_by(before, id));
                            } else {
                                assert(known[i as int].id@ == id);
                            }
                        }
                        if played_among(known, models, i + 1, id) {
                            let j = choose|j: int|
                                0 <= j < i + 1 && is_played(models, j) && (
                                #[trigger] known[j]).id@ == id;
                            if j < i {
                                assert(played_among(known, models, i as int, id));
                                assert(leased_by(before, id));
                                let k = choose|k: int|
                                    0 <= k < before.len() && (#[trigger] before[k])@ == id;
                                assert(leased@[k]@ == id);
                            }
                        }
                    }
                }
                if let Some(mode) = capture_mode(&self.lights[i]) {
                    let ghost before = going_back@;
                    going_back.push((i, mode));
                    assert(target_models(going_back@) =~= target_models(before).push(
                        (i as int, mode),
                    ));
                }
            } else {
                proof {
                    assert forall|id: Seq<char>| #[trigger] leased_by(leased@, id)
                        <==> played_among(known, models, i + 1, id) by {
                        if played_among(known, models, i + 1, id) {
                            let j = choose|j: int|
                                0 <= j < i + 1 && is_played(models, j) && (
                                #[trigger] known[j]).id@ == id;
                            assert(j < i);
                            assert(played_among(known, models, i as int, id));
                        }
                    }
                }
            }
            i += 1;
        }
        let replaced = match &self.active {
            Some(active) => Some(active.playback_id),
            None => None,
        };
        let playback_id: u64 = self.next_playback_id;
        self.next_playback_id = playback_id.wrapping_add(1);
        self.active = Some(ActivePlayback { playback_id, leased, status: status.clone() });
        self.record(Event::Playback { playback: Some(status.clone()) });
        proof {
            assert(self.log@.drop_last() =~= old(self).log@);
            assert(self.shown() =~= fold(old(self).shown(), self.log@.last()));
        }
        Ok(
            Started { playback_id, animation: index, status, targets, reverts: going_back, replaced },
        )
    }
}

proof fn connected_lights_are_connected(lights: Seq<LightSnapshot>, chosen: Seq<int>, n: int)
    requires
        0 <= n <= chosen.len(),
        forall|k: int| 0 <= k < chosen.len() ==> 0 <= #[trigger] chosen[k] < lights.len(),
    ensures
        forall|k: int|
            0 <= k < connected_among(lights, chosen, n).len() ==> {
                let i = #[trigger] connected_among(lights, chosen, n)[k];
                0 <= i < lights.len() && lights[i].conn == ConnState::Connected
            },
    decreases n,
{
    if n > 0 {
        connected_lights_are_connected(lights, chosen, n - 1);
        let head = connected_among(lights, chosen, n - 1);
        let all = connected_among(lights, chosen, n);
        assert forall|k: int| 0 <= k < all.len() implies {
            let i = #[trigger] all[k];
            0 <= i < lights.len() && lights[i].conn == ConnState::Connected
        } by {
            if k < head.len() {
                assert(all[k] == head[k]);
            }
        }
    }
}

/// A target that can be played stands for at least one light, and only for lights
/// that are connected.
pub proof fn only_connected_lights_are_played(
    lights: Seq<LightSnapshot>,
    binding: TargetBinding,
    target: AnimTarget,
)
    requires
        target.wf(),
    ensures
        lights_of(lights, binding, target) matches Ok(chosen) ==> chosen.len() > 0 && forall|k: int|
            0 <= k < chosen.len() ==> {
                let i = #[trigger] chosen[k];
                0 <= i < lights.len() && lights[i].conn == ConnState::Connected
            },
{
    let chosen = selected(lights, binding.all, lights.len() as int);
    selected_in_range(lights, binding.all, lights.len() as int);
    connected_lights_are_connected(lights, chosen, chosen.len() as int);
    match target {
        AnimTarget::Slot(slot) => {
            if slot@ - 1 < binding.slots@.len() {
                crate::world::find_light_is_first(lights, binding.slots@[slot@ - 1]@);
            } else {
                let all = bound_lights(lights, binding);
                if all.len() > 0 {
                    let turn = (slot@ - 1) % all.len() as int;
                    assert(0 <= turn < all.len());
                    assert(lights[all[turn]].conn == ConnState::Connected);
                }
            }
        },
        AnimTarget::All => {},
    }
}

/// Slots without a light of their own take turns: slots whose numbers differ by
/// the number of lights that stand for all share a light.
pub proof fn slots_take_turns(
    lights: Seq<LightSnapshot>,
    binding: TargetBinding,
    a: SlotNumber,
    b: SlotNumber,
)
    requires
        a.wf(),
        b.wf(),
        a@ > binding.slots@.len(),
        b@ == a@ + bound_lights(lights, binding).len(),
    ensures
        bound_lights(lights, binding).len() > 0 ==> lights_of(lights, binding, AnimTarget::Slot(a))
            == lights_of(lights, binding, AnimTarget::Slot(b)),
{
    let n = bound_lights(lights, binding).len() as int;
    if n > 0 {
        assert((a@ - 1 + n) % n == (a@ - 1) % n) by (nonlinear_arith)
            requires
                n > 0,
        ;
    }
}

/// No more lights are selected than there are.
pub proof fn selected_is_short(lights: Seq<LightSnapshot>, selector: Selector, n: int)
    requires
        0 <= n <= lights.len(),
    ensures
        selected(lights, selector, n).len() <= n,
    decreases n,
{
    if n > 0 {
        selected_is_short(lights, selector, n - 1);
    }
}

proof fn desired_by(lights: Seq<LightSnapshot>, targets: Seq<(int, Mode)>, i: int, last: int)
    requires
        in_range(targets, lights.len() as int),
        0 <= i < lights.len(),
        -1 <= last < targets.len(),
        last >= 0 ==> targets[last].0 == i,
        forall|k: int| last < k < targets.len() ==> (#[trigger] targets[k]).0 != i,
    ensures
        with_desired(lights, targets).len() == lights.len(),
        with_desired(lights, targets)[i] == if last >= 0 {
            LightSnapshot { desired: Some(targets[last].1), ..lights[i] }
        } else {
            lights[i]
        },
    decreases targets.len(),
{
    if targets.len() > 0 {
        let rest = targets.drop_last();
        let n = targets.len() - 1;
        assert(in_range(rest, lights.len() as int)) by {
            assert forall|k: int| 0 <= k < rest.len() implies 0 <= (#[trigger] rest[k]).0
                < lights.len() by {
                assert(rest[k] == targets[k]);
            }
        }
        desired_keeps_lights(lights, rest);
        assert(0 <= targets[n].0 < lights.len());
        if last < n {
            assert(targets[n].0 != i);
            assert forall|k: int| last < k < rest.len() implies (#[trigger] rest[k]).0 != i by {
                assert(rest[k] == targets[k]);
            }
            desired_by(lights, rest, i, last);
        }
    }
}

/// Each light is to have the mode of the last target that is for it, and keeps what it had
/// where none is; nothing else of it changes.
pub proof fn targets_set_what_is_desired(
    lights: Seq<LightSnapshot>,
    targets: Seq<(int, Mode)>,
    i: int,
    last: int,
)
    requires
        in_range(targets, lights.len() as int),
        0 <= i < lights.len(),
        -1 <= last < targets.len(),
        last >= 0 ==> targets[last].0 == i,
        forall|k: int| last < k < targets.len() ==> (#[trigger] targets[k]).0 != i,
    ensures
        with_desired(lights, targets).len() == lights.len(),
        last >= 0 ==> with_desired(lights, targets)[i] == (LightSnapshot {
            desired: Some(targets[last].1),
            ..lights[i]
        }),
        last < 0 ==> with_desired(lights, targets)[i] == lights[i],
{
    desired_by(lights, targets, i, last);
}

/// One event tells of each target, in their order and with the numbers that follow: the
/// light with the mode that is desired of it.
pub proof fn targets_are_announced_one_by_one(
    lights: Seq<LightSnapshot>,
    targets: Seq<(int, Mode)>,
    seq: int,
    k: int,
)
    requires
        in_range(targets, lights.len() as int),
        0 <= k < targets.len(),
        0 <= seq,
        seq + targets.len() <= u64::MAX,
    ensures
        desired_events(lights, targets, seq).len() == targets.len(),
        desired_events(lights, targets, seq)[k].seq == seq + k + 1,
        desired_events(lights, targets, seq)[k].event matches Event::Light { light } && light == (
        LightSnapshot { desired: Some(targets[k].1), ..lights[targets[k].0] }),
    decreases targets.len(),
{
    let rest = targets.drop_last();
    let n = targets.len() - 1;
    assert forall|j: int| 0 <= j < rest.len() implies 0 <= (#[trigger] rest[j]).0
        < lights.len() by {
        assert(rest[j] == targets[j]);
    }
    desired_keeps_lights(lights, rest);
    assert(0 <= targets[n].0 < lights.len());
    if n > 0 {
        targets_are_announced_one_by_one(
            lights,
            rest,
            seq,
            if k < n {
                k
            } else {
                0
            },
        );
    } else {
        assert(desired_events(lights, rest, seq).len() == 0);
    }
}

/// A playback is disturbed exactly by a target for a light that it has leased.
pub proof fn leased_lights_disturb_the_playback(
    lights: Seq<LightSnapshot>,
    targets: Seq<(int, Mode)>,
    playing: Option<ActivePlayback>,
)
    ensures
        touches_lease(lights, targets, playing) <==> playing is Some && exists|k: int, j: int|
            0 <= k < targets.len() && 0 <= j < playing->0.leased@.len() && (
            #[trigger] playing->0.leased@[j])@ == lights[(#[trigger] targets[k]).0].id@,
{
    if playing is Some {
        let leased = playing->0.leased@;
        if touches_lease(lights, targets, playing) {
            let k = choose|k: int|
                0 <= k < targets.len() && leased_by(leased, lights[(#[trigger] targets[k]).0].id@);
            let j = choose|j: int|
                0 <= j < leased.len() && (#[trigger] leased[j])@ == lights[targets[k].0].id@;
            assert(leased[j]@ == lights[targets[k].0].id@);
        }
        if exists|k: int, j: int|
            0 <= k < targets.len() && 0 <= j < leased.len() && (#[trigger] leased[j])@ == lights[(
            #[trigger] targets[k]).0].id@ {
            let (k, j) = choose|k: int, j: int|
                0 <= k < targets.len() && 0 <= j < leased.len() && (#[trigger] leased[j])@
                    == lights[(#[trigger] targets[k]).0].id@;
            assert(leased_by(leased, lights[targets[k].0].id@));
        }
    }
}

/// A playback is refused if and only if its options are out of range, its animation is not
/// known, or its targets cannot be cast; the first of these is told.
pub proof fn playbacks_are_refused_for_the_first_reason(
    registry: Registry,
    id: Seq<char>,
    options: PlaybackOptions,
    binding: TargetBinding,
    i: int,
)
    ensures
        ({
            let animations = registry.animation_list();
            let told = refusal(registry, id, options, binding);
            &&& !options.wf() ==> told == Some(options.fault())
            &&& options.wf() && (forall|j: int|
                0 <= j < animations.len() ==> (#[trigger] animations[j]).id@ != id) ==> told
                == Some("animation "@ + id + " was not found"@)
            &&& options.wf() && 0 <= i < animations.len() && animations[i].id@ == id && (forall|j: int|
                0 <= j < i ==> (#[trigger] animations[j]).id@ != id) ==> match resolution(
                registry.known(),
                animations[i].keyframes@,
                binding,
            ) {
                Ok(_) => told is None,
                Err(message) => told == Some(message),
            }
        }),
{
    animation_is_first(registry.animation_list(), id);
}

/// A playback shows the animation that was asked for, when it began, and whether it loops:
/// as asked, or as the animation does by itself.
pub proof fn playbacks_show_what_they_play(
    before: Registry,
    after: Registry,
    id: Seq<char>,
    options: PlaybackOptions,
    binding: TargetBinding,
    started_ms: u64,
    started: Started,
)
    requires
        began(before, after, id, options, binding, started_ms, started),
    ensures
        started.status.animation@ == id,
        exists|i: int|
            0 <= i < before.animation_list().len() && ({
                let animation = #[trigger] before.animation_list()[i];
                &&& animation.id@ == id
                &&& started.status.name == animation.name
                &&& options.loop_override is None ==> started.status.looping
                    == animation.loop_default
            }),
        started.status.started_ms == started_ms,
        options.loop_override matches Some(looping) ==> started.status.looping == looping,
        after.playing() matches Some(active) && active.status == started.status
            && active.playback_id == started.playback_id,
        before.playing() is None ==> started.replaced is None,
        before.playing() matches Some(active) ==> started.replaced == Some(active.playback_id),
{
    let animations = before.animation_list();
    animation_is_first(animations, id);
    let animation = animations[find_animation(animations, id)];
    assert(animation.id@ == id);
}

} // verus!
