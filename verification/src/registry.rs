//! The registry of known lights: what it knows, and the events it publishes.
use vstd::prelude::*;
use vstd::string::StringExecFns;
use std::collections::VecDeque;
use crate::animation::{Animation, PlaybackStatus};
use crate::events::{replay_is_exact, replay_since};
use crate::id::LightId;
use crate::idmap::IdMap;
use crate::mode::Mode;
use crate::order::on_shelf;
use crate::models::{best_entry, normalized, ModelTable};
use crate::preset::Preset;
use crate::selector::Selector;
use crate::state::{
    copy_lights, ConnState, Event, LightSnapshot, PerLightResult, SeqEvent, SkipReason, World,
    WorldSnapshot,
};
use crate::text::owned;
use crate::transport::Discovered;
use crate::world::{
    find_light, find_light_is_first, fold, fold_all, fold_all_adds, found_at, placed, position_of,
};

verus! {

/// The number of events that are kept for clients that come back.
pub const EVENT_RING_CAPACITY: usize = 256;

/// The playback that is running.
#[derive(Debug)]
pub struct ActivePlayback {
    pub playback_id: u64,
    pub leased: Vec<LightId>,
    pub status: PlaybackStatus,
}

/// Why a playback ended.
#[derive(Clone, Copy, Debug, PartialEq, Eq, Structural)]
pub enum PlaybackFinishReason {
    Natural,
    Cancelled,
    Chained,
}

/// Numbers a reason for a playback to be cancelled.
pub fn encode_cancel_reason(reason: PlaybackFinishReason) -> (r: u8)
    ensures
        r == cancel_code(reason),
{
    match reason {
        PlaybackFinishReason::Natural => 0,
        PlaybackFinishReason::Cancelled => 1,
        PlaybackFinishReason::Chained => 2,
    }
}

/// The number of a reason for a playback to be cancelled.
pub open spec fn cancel_code(reason: PlaybackFinishReason) -> u8 {
    match reason {
        PlaybackFinishReason::Natural => 0,
        PlaybackFinishReason::Cancelled => 1,
        PlaybackFinishReason::Chained => 2,
    }
}

/// The reason with a number; anything but a chained playback was cancelled.
pub open spec fn cancel_reason(code: u8) -> PlaybackFinishReason {
    if code == 2 {
        PlaybackFinishReason::Chained
    } else {
        PlaybackFinishReason::Cancelled
    }
}

/// Finds the reason with a number.
pub fn decode_cancel_reason(reason: u8) -> (r: PlaybackFinishReason)
    ensures
        r == cancel_reason(reason),
{
    match reason {
        2 => PlaybackFinishReason::Chained,
        _ => PlaybackFinishReason::Cancelled,
    }
}

/// The reason of a cancellation survives its number.
pub proof fn cancel_reasons_survive(reason: PlaybackFinishReason)
    requires
        !(reason is Natural),
    ensures
        cancel_reason(cancel_code(reason)) == reason,
{
}

/// A world before anything is known.
pub open spec fn nothing() -> World {
    World { seq: 0, lights: Seq::empty(), playback: None }
}

/// No two lights have the same identifier.
pub open spec fn distinct(lights: Seq<LightSnapshot>) -> bool {
    forall|i: int, j: int|
        0 <= i < j < lights.len() ==> (#[trigger] lights[i]).id@ != (#[trigger] lights[j]).id@
}

/// Events numbered one by one from the first.
pub open spec fn numbered(log: Seq<SeqEvent>) -> bool {
    forall|i: int| 0 <= i < log.len() ==> (#[trigger] log[i]).seq == i + 1
}

/// The last events, as many as are kept.
pub open spec fn recent(log: Seq<SeqEvent>) -> Seq<SeqEvent> {
    if log.len() <= EVENT_RING_CAPACITY {
        log
    } else {
        log.skip(log.len() - EVENT_RING_CAPACITY)
    }
}

/// The event that a light changed.
pub open spec fn light_event(seq: int, light: LightSnapshot) -> SeqEvent {
    SeqEvent { seq: seq as u64, event: Event::Light { light } }
}

/// The event that a playback began or ended.
pub open spec fn playback_event(seq: int, playback: Option<PlaybackStatus>) -> SeqEvent {
    SeqEvent { seq: seq as u64, event: Event::Playback { playback } }
}

/// The identifier is among those that a playback has leased.
pub open spec fn leased_by(leased: Seq<LightId>, id: Seq<char>) -> bool {
    exists|i: int| 0 <= i < leased.len() && (#[trigger] leased[i])@ == id
}

/// A light is selected.
pub open spec fn selects(selector: Selector, id: Seq<char>) -> bool {
    match selector {
        Selector::All => true,
        Selector::Ids { ids } => leased_by(ids@, id),
    }
}

/// The places of the selected ones among the first `n` lights, in order.
pub open spec fn selected(lights: Seq<LightSnapshot>, selector: Selector, n: int) -> Seq<int>
    decreases n,
{
    if n <= 0 {
        Seq::empty()
    } else {
        let head = selected(lights, selector, n - 1);
        if selects(selector, lights[n - 1].id@) {
            head.push(n - 1)
        } else {
            head
        }
    }
}

/// Positions as plain numbers.
pub open spec fn places(indices: Seq<usize>) -> Seq<int> {
    indices.map_values(|index: usize| index as int)
}

/// Places are lights' places in ascending order.
pub proof fn selected_in_range(lights: Seq<LightSnapshot>, selector: Selector, n: int)
    requires
        0 <= n <= lights.len(),
    ensures
        forall|i: int|
            0 <= i < selected(lights, selector, n).len() ==> 0 <= #[trigger] selected(
                lights,
                selector,
                n,
            )[i] < n,
    decreases n,
{
    if n > 0 {
        selected_in_range(lights, selector, n - 1);
        let head = selected(lights, selector, n - 1);
        let all = selected(lights, selector, n);
        assert forall|i: int| 0 <= i < all.len() implies 0 <= #[trigger] all[i] < n by {
            if i < head.len() {
                assert(all[i] == head[i]);
            }
        }
    }
}

/// The words for a light that is not known.
pub open spec fn unknown_light(id: Seq<char>) -> Seq<char> {
    "light "@ + id + " was not found"@
}

/// Tells whether an identifier is among others.
pub fn has_id(ids: &Vec<LightId>, id: &LightId) -> (r: bool)
    ensures
        r == leased_by(ids@, id@),
{
    let mut i: usize = 0;
    while i < ids.len()
        invariant
            i <= ids@.len(),
            forall|j: int| 0 <= j < i ==> (#[trigger] ids@[j])@ != id@,
        decreases ids.len() - i,
    {
        if ids[i].same(id) {
            return true;
        }
        i += 1;
    }
    false
}

/// Describes a light that is not known.
pub fn unknown_light_message(id: &LightId) -> (r: String)
    ensures
        r@ == unknown_light(id@),
{
    let mut text = owned("light ");
    text.append(id.as_str());
    text.append(" was not found");
    text
}

/// A light after the outcome of a request to it. A mode that turns the light on
/// or off also tells its power.
pub open spec fn with_result(light: LightSnapshot, result: PerLightResult) -> LightSnapshot {
    match result {
        PerLightResult::Applied { mode, .. } => confirmed(light, mode),
        PerLightResult::Adapted { applied, .. } => confirmed(light, applied),
        _ => light,
    }
}

/// A light after a mode was applied to it.
pub open spec fn confirmed(light: LightSnapshot, mode: Mode) -> LightSnapshot {
    LightSnapshot {
        confirmed: Some(mode),
        power: match mode {
            Mode::On => Some(true),
            Mode::Off => Some(false),
            _ => light.power,
        },
        last_error: None,
        ..light
    }
}

/// The error that an outcome leaves with a light, if it leaves one.
pub open spec fn error_of(result: PerLightResult) -> Option<Seq<char>> {
    match result {
        PerLightResult::Skipped { reason: SkipReason::NotConnected, .. } => Some("not connected"@),
        PerLightResult::Skipped { reason: SkipReason::UnsupportedMode, .. } => Some(
            "unsupported mode"@,
        ),
        PerLightResult::Failed { error, .. } => Some(error@),
        _ => None,
    }
}

/// The light that a result is about.
pub open spec fn id_of(result: PerLightResult) -> LightId {
    match result {
        PerLightResult::Applied { id, .. } => id,
        PerLightResult::Coalesced { id } => id,
        PerLightResult::Adapted { id, .. } => id,
        PerLightResult::Skipped { id, .. } => id,
        PerLightResult::Failed { id, .. } => id,
    }
}

/// Returns the light that a result is about.
pub fn result_id(result: &PerLightResult) -> (r: &LightId)
    ensures
        *r == id_of(*result),
{
    match result {
        PerLightResult::Applied { id, .. } => id,
        PerLightResult::Coalesced { id } => id,
        PerLightResult::Adapted { id, .. } => id,
        PerLightResult::Skipped { id, .. } => id,
        PerLightResult::Failed { id, .. } => id,
    }
}

/// The registry of known lights.
pub struct Registry {
    pub(crate) lights: Vec<LightSnapshot>,
    pub(crate) labels: IdMap<String>,
    pub(crate) seq: u64,
    pub(crate) ring: VecDeque<SeqEvent>,
    pub(crate) animations: Vec<Animation>,
    pub(crate) presets: Vec<Preset>,
    pub(crate) active: Option<ActivePlayback>,
    pub(crate) next_playback_id: u64,
    pub(crate) log: Ghost<Seq<SeqEvent>>,
}

impl Registry {
    /// Everything that has been published so far.
    pub open(crate) spec fn history(self) -> Seq<SeqEvent> {
        self.log@
    }

    /// The known lights.
    pub open(crate) spec fn known(self) -> Seq<LightSnapshot> {
        self.lights@
    }

    /// What the registry knows, as clients see it.
    pub open(crate) spec fn shown(self) -> World {
        World {
            seq: self.seq as int,
            lights: self.lights@,
            playback: match self.active {
                Some(active) => Some(active.status),
                None => None,
            },
        }
    }

    /// The labels that users gave to lights.
    pub open(crate) spec fn label_book(self) -> IdMap<String> {
        self.labels
    }

    /// The animations that can be played.
    pub open(crate) spec fn animation_list(self) -> Seq<Animation> {
        self.animations@
    }

    /// The presets, in the order in which users see them.
    pub open(crate) spec fn preset_list(self) -> Seq<Preset> {
        self.presets@
    }

    /// The events that are kept for clients that come back.
    pub open(crate) spec fn kept(self) -> Seq<SeqEvent> {
        self.ring@
    }

    /// The number of the next playback.
    pub open(crate) spec fn next_id(self) -> u64 {
        self.next_playback_id
    }

    /// The playback that is running.
    pub open(crate) spec fn playing(self) -> Option<ActivePlayback> {
        self.active
    }

    /// Events are numbered one by one, and the last of them are kept.
    pub open(crate) spec fn log_wf(self) -> bool {
        &&& self.seq == self.log@.len()
        &&& numbered(self.log@)
        &&& self.ring@ == recent(self.log@)
    }

    /// The events that were published add up to what is shown, no two lights have
    /// the same identifier, temperature limits are in order, and so are animations.
    pub open(crate) spec fn wf(self) -> bool {
        &&& self.log_wf()
        &&& distinct(self.lights@)
        &&& on_shelf(self.animations@)
        &&& self.shown() == fold_all(nothing(), self.log@)
        &&& forall|i: int|
            0 <= i < self.lights@.len() ==> (#[trigger] self.lights@[i]).caps.ordered()
    }

    /// There are numbers left for the events of any one request.
    pub open(crate) spec fn room(self) -> bool {
        self.seq + self.lights@.len() + 2 <= u64::MAX
    }

    /// Only lights, the playback and the events differ.
    pub open(crate) spec fn same_library(self, other: Registry) -> bool {
        &&& self.animations == other.animations
        &&& self.presets == other.presets
        &&& self.next_playback_id == other.next_playback_id
    }

    /// Lights, labels, the playback and the events are the same.
    pub open(crate) spec fn same_world(self, other: Registry) -> bool {
        &&& self.lights == other.lights
        &&& self.labels == other.labels
        &&& self.seq == other.seq
        &&& self.ring == other.ring
        &&& self.active == other.active
        &&& self.log == other.log
    }

    /// Starts with no lights.
    pub fn new(labels: IdMap<String>, animations: Vec<Animation>, presets: Vec<Preset>) -> (r: Self)
        requires
            on_shelf(animations@),
        ensures
            r.wf(),
            r.room(),
            r.shown() == nothing(),
            r.playing() is None,
            r.next_id() == 1,
            r.label_book() == labels,
            r.animation_list() == animations@,
            r.preset_list() == presets@,
    {
        let r = Registry {
            lights: Vec::new(),
            labels,
            seq: 0,
            ring: VecDeque::new(),
            animations,
            presets,
            active: None,
            next_playback_id: 1,
            log: Ghost(Seq::empty()),
        };
        assert(r.shown() =~= nothing());
        r
    }

    /// Tells whether there are numbers left for the events of any one request.
    pub fn has_room(&self) -> (r: bool)
        ensures
            r == self.room(),
    {
        self.seq as u128 + self.lights.len() as u128 + 2 <= u64::MAX as u128
    }

    /// Returns what the registry knows, as clients see it.
    pub fn world(&self) -> (r: WorldSnapshot)
        ensures
            r@ == self.shown(),
    {
        WorldSnapshot {
            seq: self.seq,
            lights: copy_lights(self.lights.as_slice()),
            playback: match &self.active {
                Some(active) => Some(active.status.clone()),
                None => None,
            },
        }
    }

    /// Replays events newer than `seq`, or returns `None` if the gap was evicted.
    pub fn events_since(&self, seq: u64) -> (r: Option<Vec<SeqEvent>>)
        requires
            self.wf(),
        ensures
            match r {
                Some(events) => {
                    &&& seq + EVENT_RING_CAPACITY >= self.history().len()
                    &&& events@ == if seq >= self.shown().seq {
                        Seq::empty()
                    } else {
                        self.history().skip(seq as int)
                    }
                },
                None => seq + EVENT_RING_CAPACITY < self.history().len(),
            },
    {
        proof {
            replay_is_exact(self.log@, seq as int);
        }
        replay_since(&self.ring, seq)
    }

    /// Copies the events that are kept for clients that come back.
    pub fn recent_events(&self) -> (r: VecDeque<SeqEvent>)
        ensures
            r@ == self.kept(),
    {
        let mut r: VecDeque<SeqEvent> = VecDeque::new();
        let mut i: usize = 0;
        while i < self.ring.len()
            invariant
                i <= self.ring@.len(),
                r@ == self.ring@.take(i as int),
            decreases self.ring.len() - i,
        {
            r.push_back(self.ring[i].clone());
            assert(self.ring@.take(i + 1) =~= self.ring@.take(i as int).push(
                self.ring@[i as int],
            ));
            i += 1;
        }
        assert(self.ring@.take(i as int) =~= self.ring@);
        r
    }

    /// Numbers an event and keeps it with the most recent ones.
    pub(crate) fn record(&mut self, event: Event)
        requires
            old(self).log_wf(),
            old(self).seq < u64::MAX,
        ensures
            final(self).log_wf(),
            final(self).lights == old(self).lights,
            final(self).labels == old(self).labels,
            final(self).active == old(self).active,
            final(self).same_library(*old(self)),
            final(self).seq == old(self).seq + 1,
            final(self).log@ == old(self).log@.push(
                SeqEvent { seq: (old(self).seq + 1) as u64, event },
            ),
    {
        let ghost before = self.log@;
        self.seq = self.seq + 1;
        let event = SeqEvent { seq: self.seq, event };
        if self.ring.len() == EVENT_RING_CAPACITY {
            let _ = self.ring.pop_front();
        }
        let ghost kept = event;
        self.ring.push_back(event);
        self.log = Ghost(before.push(kept));
        assert(self.ring@ =~= recent(self.log@));
    }

    /// Publishes a light that was changed in its place.
    pub(crate) fn emit(&mut self, index: usize)
        requires
            old(self).log_wf(),
            old(self).seq < u64::MAX,
            index < old(self).lights@.len(),
        ensures
            final(self).log_wf(),
            final(self).lights == old(self).lights,
            final(self).labels == old(self).labels,
            final(self).active == old(self).active,
            final(self).same_library(*old(self)),
            final(self).seq == old(self).seq + 1,
            final(self).log@ == old(self).log@.push(
                light_event(old(self).seq + 1, old(self).lights@[index as int]),
            ),
    {
        let light = self.lights[index].clone();
        self.record(Event::Light { light });
    }

    /// The place of a light, if it is known.
    pub fn index_of(&self, id: &LightId) -> (r: Option<usize>)
        ensures
            match r {
                Some(i) => i == find_light(self.known(), id@) && i < self.known().len(),
                None => find_light(self.known(), id@) == self.known().len(),
            },
    {
        position_of(self.lights.as_slice(), id)
    }

    /// The places of the selected lights, in order.
    pub fn target_indices(&self, selector: &Selector) -> (r: Vec<usize>)
        ensures
            places(r@) == selected(self.known(), *selector, self.known().len() as int),
            forall|i: int| 0 <= i < r@.len() ==> (#[trigger] r@[i]) < self.known().len(),
    {
        let mut r: Vec<usize> = Vec::new();
        let mut i: usize = 0;
        while i < self.lights.len()
            invariant
                i <= self.lights@.len(),
                places(r@) == selected(self.lights@, *selector, i as int),
                forall|j: int| 0 <= j < r@.len() ==> (#[trigger] r@[j]) < i,
            decreases self.lights.len() - i,
        {
            let chosen = match selector {
                Selector::All => true,
                Selector::Ids { ids } => has_id(ids, &self.lights[i].id),
            };
            if chosen {
                let ghost before = r@;
                r.push(i);
                assert(places(r@) =~= places(before).push(i as int));
            }
            i += 1;
        }
        r
    }

    /// Tells whether the running playback has leased a light.
    pub fn active_leases(&self, id: &LightId) -> (r: bool)
        ensures
            r == (self.playing() matches Some(active) && leased_by(active.leased@, id@)),
    {
        match &self.active {
            Some(active) => has_id(&active.leased, id),
            None => false,
        }
    }
}

/// Replacing a light in its place is what an event about it does.
pub(crate) proof fn replacing_is_placing(lights: Seq<LightSnapshot>, i: int, light: LightSnapshot)
    requires
        distinct(lights),
        0 <= i < lights.len(),
        light.id@ == lights[i].id@,
    ensures
        placed(lights, light) == lights.update(i, light),
        distinct(lights.update(i, light)),
{
    found_at(lights, light.id@, i);
}

impl Registry {
    /// Replaces a light by one with the same identifier and publishes it.
    pub(crate) fn update(&mut self, index: usize, light: LightSnapshot)
        requires
            old(self).wf(),
            old(self).seq < u64::MAX,
            index < old(self).lights@.len(),
            light.id@ == old(self).lights@[index as int].id@,
            light.caps.ordered(),
        ensures
            final(self).wf(),
            final(self).lights@ == old(self).lights@.update(index as int, light),
            final(self).labels == old(self).labels,
            final(self).active == old(self).active,
            final(self).same_library(*old(self)),
            final(self).seq == old(self).seq + 1,
            final(self).log@ == old(self).log@.push(light_event(old(self).seq + 1, light)),
    {
        proof {
            replacing_is_placing(self.lights@, index as int, light);
        }
        self.lights.set(index, light);
        self.emit(index);
        proof {
            assert(self.log@.drop_last() =~= old(self).log@);
            assert(self.shown() =~= fold(old(self).shown(), self.log@.last()));
        }
    }

    /// Changes a light label. Fails for a light that is not known.
    pub fn set_label(&mut self, id: LightId, label: String) -> (r: Result<LightSnapshot, String>)
        requires
            old(self).wf(),
            old(self).room(),
        ensures
            final(self).wf(),
            final(self).same_library(*old(self)),
            final(self).playing() == old(self).playing(),
            ({
                let i = find_light(old(self).known(), id@);
                match r {
                    Ok(light) => {
                        &&& i < old(self).known().len()
                        &&& light == LightSnapshot { label, ..old(self).known()[i] }
                        &&& final(self).known() == old(self).known().update(i, light)
                        &&& final(self).history() == old(self).history().push(
                            light_event(old(self).shown().seq + 1, light),
                        )
                        &&& forall|other: Seq<char>|
                            #[trigger] final(self).label_book().of(other) == if other == id@ {
                                Some(label)
                            } else {
                                old(self).label_book().of(other)
                            }
                    },
                    Err(message) => {
                        &&& i == old(self).known().len()
                        &&& message@ == unknown_light(id@)
                        &&& *final(self) == *old(self)
                    },
                }
            }),
    {
        let index = match self.index_of(&id) {
            Some(index) => index,
            None => {
                return Err(unknown_light_message(&id));
            },
        };
        let mut light = self.lights[index].clone();
        light.label = label.clone();
        let copy = light.clone();
        self.update(index, light);
        self.labels.insert(id, label);
        assert(self.shown() =~= fold_all(nothing(), self.log@));
        Ok(copy)
    }

    /// Takes note of the state of a light's connection. An error is kept, and
    /// cleared once the light is connected without one.
    pub fn connection(&mut self, id: &LightId, conn: ConnState, error: Option<String>)
        requires
            old(self).wf(),
            old(self).room(),
        ensures
            final(self).wf(),
            final(self).same_library(*old(self)),
            final(self).label_book() == old(self).label_book(),
            final(self).playing() == old(self).playing(),
            ({
                let i = find_light(old(self).known(), id@);
                if i < old(self).known().len() {
                    let light = LightSnapshot {
                        conn,
                        last_error: if error is Some || conn == ConnState::Connected {
                            error
                        } else {
                            old(self).known()[i].last_error
                        },
                        ..old(self).known()[i]
                    };
                    &&& final(self).known() == old(self).known().update(i, light)
                    &&& final(self).history() == old(self).history().push(
                        light_event(old(self).shown().seq + 1, light),
                    )
                } else {
                    *final(self) == *old(self)
                }
            }),
    {
        if let Some(index) = self.index_of(id) {
            let mut light = self.lights[index].clone();
            light.conn = conn;
            if error.is_some() || conn == ConnState::Connected {
                light.last_error = error;
            }
            self.update(index, light);
        }
    }

    /// Takes note of the outcome of a request to a light.
    pub fn apply_result(&mut self, result: &PerLightResult)
        requires
            old(self).wf(),
            old(self).room(),
        ensures
            final(self).wf(),
            final(self).same_library(*old(self)),
            final(self).label_book() == old(self).label_book(),
            final(self).playing() == old(self).playing(),
            ({
                let i = find_light(old(self).known(), id_of(*result)@);
                if i < old(self).known().len() {
                    let before = old(self).known()[i];
                    let light = final(self).known()[i];
                    &&& match error_of(*result) {
                        Some(error) => light.last_error matches Some(text) && text@ == error && light
                            == LightSnapshot { last_error: light.last_error, ..before },
                        None => light == with_result(before, *result),
                    }
                    &&& final(self).known() == old(self).known().update(i, light)
                    &&& final(self).history() == old(self).history().push(
                        light_event(old(self).shown().seq + 1, light),
                    )
                } else {
                    *final(self) == *old(self)
                }
            }),
    {
        let index = match self.index_of(result_id(result)) {
            Some(index) => index,
            None => {
                return;
            },
        };
        let mut light = self.lights[index].clone();
        match result {
            PerLightResult::Applied { mode, .. } => {
                light.confirmed = Some(*mode);
                update_power(&mut light, *mode);
                light.last_error = None;
            },
            PerLightResult::Adapted { applied, .. } => {
                light.confirmed = Some(*applied);
                update_power(&mut light, *applied);
                light.last_error = None;
            },
            PerLightResult::Coalesced { .. } => {},
            PerLightResult::Skipped { reason, .. } => {
                light.last_error = Some(
                    match reason {
                        SkipReason::NotConnected => owned("not connected"),
                        SkipReason::UnsupportedMode => owned("unsupported mode"),
                    },
                );
            },
            PerLightResult::Failed { error, .. } => {
                light.last_error = Some(error.clone());
            },
        }
        self.update(index, light);
    }

    /// Takes note of a light that a scan reported. A known one gets its signal
    /// strength; an unknown one is added, with the capabilities of its model, and
    /// its place is returned: an actor has to be started for it.
    pub fn discovered(&mut self, found: Discovered, table: &ModelTable) -> (r: Option<usize>)
        requires
            old(self).wf(),
            old(self).room(),
        ensures
            final(self).wf(),
            final(self).same_library(*old(self)),
            final(self).label_book() == old(self).label_book(),
            final(self).playing() == old(self).playing(),
            ({
                let i = find_light(old(self).known(), found.id@);
                let next = old(self).shown().seq + 1;
                if i < old(self).known().len() {
                    let light = LightSnapshot { rssi: found.rssi, ..old(self).known()[i] };
                    &&& r is None
                    &&& if old(self).known()[i].rssi == found.rssi {
                        *final(self) == *old(self)
                    } else {
                        &&& final(self).known() == old(self).known().update(i, light)
                        &&& final(self).history() == old(self).history().push(
                            light_event(next, light),
                        )
                    }
                } else {
                    let light = final(self).known().last();
                    &&& r == Some(old(self).known().len() as usize)
                    &&& final(self).known() == old(self).known().push(light)
                    &&& final(self).history() == old(self).history().push(light_event(next, light))
                    &&& newly_found(light, found, old(self).label_book().of(found.id@), *table)
                }
            }),
    {
        if let Some(index) = self.index_of(&found.id) {
            let rssi = self.lights[index].rssi;
            let same = match (rssi, found.rssi) {
                (Some(a), Some(b)) => a == b,
                (None, None) => true,
                _ => false,
            };
            if !same {
                let mut light = self.lights[index].clone();
                light.rssi = found.rssi;
                self.update(index, light);
            }
            return None;
        }
        let index: usize = self.lights.len();
        let model = match &found.name {
            Some(name) => name.clone(),
            None => owned(found.id.as_str()),
        };
        let caps = table.resolve(model.as_str());
        let label = match self.labels.get(&found.id) {
            Some(label) => label.clone(),
            None => model.clone(),
        };
        proof {
            find_light_is_first(self.lights@, found.id@);
        }
        let light = LightSnapshot {
            id: found.id,
            model,
            label,
            caps,
            conn: ConnState::Discovered,
            rssi: found.rssi,
            desired: None,
            confirmed: None,
            power: None,
            last_error: None,
        };
        let ghost added = light;
        self.lights.push(light);
        self.emit(index);
        proof {
            assert(self.log@.drop_last() =~= old(self).log@);
            assert(self.lights@ =~= placed(old(self).lights@, added));
            assert(self.shown() =~= fold(old(self).shown(), self.log@.last()));
        }
        Some(index)
    }
}

/// A light as it is when a scan first reports it: under its advertised name or
/// else its identifier, with the capabilities of that model, and labelled as the
/// user did or else by that name.
pub open(crate) spec fn newly_found(
    light: LightSnapshot,
    found: Discovered,
    label: Option<String>,
    table: ModelTable,
) -> bool {
    let model = match found.name {
        Some(name) => name@,
        None => found.id@,
    };
    &&& light.id == found.id
    &&& light.model@ == model
    &&& light.label@ == match label {
        Some(label) => label@,
        None => model,
    }
    &&& light.caps == match best_entry(
        normalized(model),
        table.entries(),
        table.entries().len() as int,
    ) {
        Some(entry) => entry.1,
        None => table.fallback(),
    }
    &&& light.conn == ConnState::Discovered
    &&& light.rssi == found.rssi
    &&& light.desired is None
    &&& light.confirmed is None
    &&& light.power is None
    &&& light.last_error is None
}

/// Takes note of the power of a light that was turned on or off.
fn update_power(light: &mut LightSnapshot, mode: Mode)
    ensures
        *final(light) == (LightSnapshot {
            power: match mode {
                Mode::On => Some(true),
                Mode::Off => Some(false),
                _ => old(light).power,
            },
            ..*old(light)
        }),
{
    match mode {
        Mode::On => {
            light.power = Some(true);
        },
        Mode::Off => {
            light.power = Some(false);
        },
        Mode::Cct { .. } | Mode::Hsi { .. } | Mode::Scene { .. } => {},
    }
}

/// A client that saw the world after `seen` events and folds the events that are
/// replayed to it sees the world as it is.
pub proof fn replay_catches_up(registry: Registry, seen: nat)
    requires
        registry.wf(),
        seen <= registry.history().len(),
    ensures
        fold_all(
            fold_all(nothing(), registry.history().take(seen as int)),
            registry.history().skip(seen as int),
        ) == registry.shown(),
{
    let log = registry.history();
    fold_all_adds(nothing(), log.take(seen as int), log.skip(seen as int));
    assert(log.take(seen as int) + log.skip(seen as int) =~= log);
}

/// Events are numbered in strictly ascending order without gaps, and the last
/// number is that of the world.
pub proof fn events_are_strictly_sequenced(registry: Registry, i: int, j: int)
    requires
        registry.wf(),
        0 <= i < j < registry.history().len(),
    ensures
        registry.history()[i].seq < registry.history()[j].seq,
        registry.history()[i].seq == i + 1,
        registry.history().last().seq == registry.shown().seq,
{
}

/// No more events are kept than the ring holds, and they are the latest ones.
pub proof fn ring_is_bounded(registry: Registry)
    requires
        registry.wf(),
    ensures
        registry.kept().len() <= EVENT_RING_CAPACITY,
        registry.kept() == registry.history().skip(
            registry.history().len() - registry.kept().len(),
        ),
{
    let log = registry.history();
    assert(log.skip(0) =~= log);
}

/// What a light was last told is what is shown of it: a mode that got through is confirmed
/// and clears the error, turning on or off tells the power, and a failure leaves its words
/// and nothing else. A result that was overtaken by another changes nothing.
pub proof fn results_are_noted(light: LightSnapshot, result: PerLightResult)
    ensures
        match result {
            PerLightResult::Applied { mode, .. } => ({
                let after = with_result(light, result);
                &&& error_of(result) is None
                &&& after.confirmed == Some(mode)
                &&& after.last_error is None
                &&& mode is On ==> after.power == Some(true)
                &&& mode is Off ==> after.power == Some(false)
                &&& !(mode is On) && !(mode is Off) ==> after.power == light.power
                &&& after == (LightSnapshot {
                    confirmed: after.confirmed,
                    power: after.power,
                    last_error: after.last_error,
                    ..light
                })
            }),
            PerLightResult::Adapted { applied, .. } => ({
                let after = with_result(light, result);
                &&& error_of(result) is None
                &&& after.confirmed == Some(applied)
                &&& after.last_error is None
                &&& applied is On ==> after.power == Some(true)
                &&& applied is Off ==> after.power == Some(false)
                &&& !(applied is On) && !(applied is Off) ==> after.power == light.power
                &&& after == (LightSnapshot {
                    confirmed: after.confirmed,
                    power: after.power,
                    last_error: after.last_error,
                    ..light
                })
            }),
            PerLightResult::Coalesced { .. } => error_of(result) is None && with_result(
                light,
                result,
            ) == light,
            PerLightResult::Skipped { reason, .. } => error_of(result) == Some(
                match reason {
                    SkipReason::NotConnected => "not connected"@,
                    SkipReason::UnsupportedMode => "unsupported mode"@,
                },
            ),
            PerLightResult::Failed { error, .. } => error_of(result) == Some(error@),
        },
{
}

/// A light that a scan reports for the first time is shown under the name that it
/// advertises or else its identifier, with the label that the user gave it or else that
/// name, and nothing is known of its modes.
pub proof fn new_lights_start_from_their_name(
    light: LightSnapshot,
    found: Discovered,
    label: Option<String>,
    table: ModelTable,
)
    requires
        newly_found(light, found, label, table),
    ensures
        light.id@ == found.id@,
        found.name matches Some(name) ==> light.model@ == name@,
        found.name is None ==> light.model@ == found.id@,
        label matches Some(text) ==> light.label@ == text@,
        label is None ==> light.label@ == light.model@,
        light.conn == ConnState::Discovered,
        light.rssi == found.rssi,
        light.desired is None && light.confirmed is None && light.power is None,
        light.last_error is None,
        ({
            let entry = best_entry(
                normalized(light.model@),
                table.entries(),
                table.entries().len() as int,
            );
            &&& entry matches Some(best) ==> light.caps == best.1
            &&& entry is None ==> light.caps == table.fallback()
        }),
{
}

/// The registry keeps the last 256 events, and all of them while there are no more.
pub proof fn the_last_events_are_kept(registry: Registry)
    requires
        registry.wf(),
    ensures
        registry.history().len() <= 256 ==> registry.kept() == registry.history(),
        registry.history().len() > 256 ==> registry.kept().len() == 256 && registry.kept()
            == registry.history().subrange(
            registry.history().len() - 256,
            registry.history().len() as int,
        ),
{
}

/// Before the first event nothing is shown, and every event counts one.
pub proof fn shown_worlds_count_their_events(registry: Registry)
    requires
        registry.wf(),
    ensures
        registry.shown().seq == registry.history().len(),
        registry.history().len() == 0 ==> registry.known().len() == 0 && registry.playing() is None,
{
}

} // verus!
