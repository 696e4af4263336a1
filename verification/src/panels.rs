//! The panels around lights: the selection, presets and animations.
use vstd::prelude::*;
use crate::animation::{AnimationId, AnimationSummary, PlaybackOptions, Single};
use crate::id::LightId;
use crate::order::{ids_in_order, sort_ids};
use crate::preset::{PresetId, PresetTarget};
use crate::registry::{has_id, leased_by};
use crate::selector::Selector;
use crate::state::LightSnapshot;
use crate::text::{
    chars_of, contains, is_blank, is_white_space, lower_text, number, occurs, owned, parse_number,
    parts_occur, push_lower, trim, trimmed, what_occurs_is_a_part, white_space_is_trimmed_off,
};
use crate::world::{find_light, find_light_is_first, position_of};

verus! {

/// No identifier is listed twice.
pub open spec fn each_once(ids: Seq<LightId>) -> bool {
    forall|i: int, j: int|
        0 <= i < j < ids.len() ==> (#[trigger] ids[i])@ != (#[trigger] ids[j])@
}

/// The lights that a user has selected.
#[derive(Debug)]
pub struct Selection {
    pub ids: Vec<LightId>,
}

impl Selection {
    /// No light is selected twice.
    pub open spec fn wf(self) -> bool {
        each_once(self.ids@)
    }

    /// A light is selected.
    pub open spec fn holds(self, id: Seq<char>) -> bool {
        leased_by(self.ids@, id)
    }

    /// Selects nothing.
    pub fn new() -> (r: Self)
        ensures
            r.wf(),
            r.ids@.len() == 0,
    {
        Selection { ids: Vec::new() }
    }

    /// Tells whether a light is selected.
    pub fn contains(&self, id: &LightId) -> (r: bool)
        ensures
            r == self.holds(id@),
    {
        has_id(&self.ids, id)
    }

    /// Selects a light, or no longer where it was selected.
    pub fn toggle(&mut self, id: &LightId)
        requires
            old(self).wf(),
        ensures
            final(self).wf(),
            forall|other: Seq<char>| #[trigger]
                final(self).holds(other) == if other == id@ {
                    !old(self).holds(other)
                } else {
                    old(self).holds(other)
                },
    {
        let ghost before = self.ids@;
        let mut i: usize = 0;
        while i < self.ids.len()
            invariant
                i <= self.ids@.len(),
                self.ids@ == before,
                before == old(self).ids@,
                each_once(before),
                forall|j: int| 0 <= j < i ==> (#[trigger] before[j])@ != id@,
            decreases self.ids.len() - i,
        {
            if self.ids[i].same(id) {
                let _ = self.ids.remove(i);
                proof {
                    let after = self.ids@;
                    assert(leased_by(before, id@));
                    assert forall|a: int, b: int| 0 <= a < b < after.len() implies (
                    #[trigger] after[a])@ != (#[trigger] after[b])@ by {
                        let x = if a < i {
                            a
                        } else {
                            a + 1
                        };
                        let y = if b < i {
                            b
                        } else {
                            b + 1
                        };
                        assert(after[a] == before[x] && after[b] == before[y]);
                    }
                    assert forall|other: Seq<char>| #[trigger] leased_by(after, other) == if other
                        == id@ {
                        false
                    } else {
                        leased_by(before, other)
                    } by {
                        if leased_by(after, other) {
                            let k = choose|k: int|
                                0 <= k < after.len() && (#[trigger] after[k])@ == other;
                            let x = if k < i {
                                k
                            } else {
                                k + 1
                            };
                            assert(after[k] == before[x]);
                            assert(before[i as int]@ == id@);
                        }
                        if other != id@ && leased_by(before, other) {
                            let k = choose|k: int|
                                0 <= k < before.len() && (#[trigger] before[k])@ == other;
                            if k < i {
                                assert(after[k] == before[k]);
                            } else {
                                assert(after[k - 1] == before[k]);
                            }
                        }
                    }
                }
                return;
            }
            i += 1;
        }
        self.ids.push(id.clone());
        proof {
            let after = self.ids@;
            let n = before.len() as int;
            assert(after[n]@ == id@);
            assert forall|other: Seq<char>| #[trigger] leased_by(after, other) == if other == id@ {
                true
            } else {
                leased_by(before, other)
            } by {
                if leased_by(after, other) && other != id@ {
                    let k = choose|k: int| 0 <= k < after.len() && (#[trigger] after[k])@ == other;
                    assert(before[k]@ == other);
                }
                if leased_by(before, other) {
                    let k = choose|k: int|
                        0 <= k < before.len() && (#[trigger] before[k])@ == other;
                    assert(after[k]@ == other);
                }
            }
        }
    }

    /// All lights are selected, and there is at least one.
    pub fn has_all(&self, lights: &[LightSnapshot]) -> (r: bool)
        ensures
            r == (lights@.len() > 0 && forall|i: int|
                0 <= i < lights@.len() ==> self.holds((#[trigger] lights@[i]).id@)),
    {
        let mut i: usize = 0;
        while i < lights.len()
            invariant
                i <= lights@.len(),
                forall|j: int| 0 <= j < i ==> self.holds((#[trigger] lights@[j]).id@),
            decreases lights.len() - i,
        {
            if !self.contains(&lights[i].id) {
                assert(!self.holds(lights@[i as int].id@));
                return false;
            }
            i += 1;
        }
        lights.len() > 0
    }

    /// Selects all lights, or none where all were selected.
    pub fn toggle_all(&mut self, lights: &[LightSnapshot])
        requires
            old(self).wf(),
        ensures
            final(self).wf(),
            if lights@.len() > 0 && forall|i: int|
                0 <= i < lights@.len() ==> old(self).holds((#[trigger] lights@[i]).id@) {
                final(self).ids@.len() == 0
            } else {
                forall|id: Seq<char>| #[trigger]
                    final(self).holds(id) <==> exists|i: int|
                        0 <= i < lights@.len() && (#[trigger] lights@[i]).id@ == id
            },
    {
        if self.has_all(lights) {
            self.ids = Vec::new();
            return;
        }
        let mut all = Selection { ids: Vec::new() };
        let mut i: usize = 0;
        assert forall|id: Seq<char>| !(#[trigger] all.holds(id)) by {}
        while i < lights.len()
            invariant
                i <= lights@.len(),
                all.wf(),
                forall|id: Seq<char>| #[trigger]
                    all.holds(id) <==> exists|j: int|
                        0 <= j < i && (#[trigger] lights@[j]).id@ == id,
            decreases lights.len() - i,
        {
            let ghost before = all;
            if !all.contains(&lights[i].id) {
                all.toggle(&lights[i].id);
            }
            proof {
                assert forall|id: Seq<char>| #[trigger] all.holds(id) <==> exists|j: int|
                    0 <= j < i + 1 && (#[trigger] lights@[j]).id@ == id by {
                    if all.holds(id) {
                        if id == lights@[i as int].id@ {
                        } else {
                            assert(before.holds(id));
                            let j = choose|j: int| 0 <= j < i && (#[trigger] lights@[j]).id@ == id;
                            assert(lights@[j].id@ == id);
                        }
                    }
                    if exists|j: int| 0 <= j < i + 1 && (#[trigger] lights@[j]).id@ == id {
                        let j = choose|j: int| 0 <= j < i + 1 && (#[trigger] lights@[j]).id@ == id;
                        if j < i {
                            assert(before.holds(id));
                        }
                    }
                }
            }
            i += 1;
        }
        self.ids = all.ids;
    }

    /// The selector for the selected lights in order, or for all where none is
    /// selected.
    pub fn selector(&self) -> (r: Selector)
        ensures
            match r {
                Selector::All => self.ids@.len() == 0,
                Selector::Ids { ids } => {
                    &&& self.ids@.len() > 0
                    &&& ids_in_order(ids@)
                    &&& ids@.to_multiset() == self.ids@.to_multiset()
                },
            },
    {
        if self.ids.len() == 0 {
            Selector::All
        } else {
            Selector::Ids { ids: sort_ids(&self.ids) }
        }
    }

    /// The selected lights in order, if any is selected.
    pub fn chosen_ids(&self) -> (r: Option<Vec<LightId>>)
        ensures
            match r {
                Some(ids) => {
                    &&& self.ids@.len() > 0
                    &&& ids_in_order(ids@)
                    &&& ids@.to_multiset() == self.ids@.to_multiset()
                },
                None => self.ids@.len() == 0,
            },
    {
        if self.ids.len() == 0 {
            None
        } else {
            Some(sort_ids(&self.ids))
        }
    }
}

/// The words for the target of a preset entry, and whether its light is unknown.
pub open spec fn target_words(target: PresetTarget, lights: Seq<LightSnapshot>) -> (
    Seq<char>,
    bool,
) {
    match target {
        PresetTarget::Everything => ("All lights"@, false),
        PresetTarget::Light { id } => {
            let i = find_light(lights, id@);
            if i < lights.len() {
                (lights[i].label@, false)
            } else {
                (id@, true)
            }
        },
    }
}

/// Describes the target of a preset entry, and tells whether its light is unknown.
pub fn target_label(target: &PresetTarget, lights: &[LightSnapshot]) -> (r: (String, bool))
    ensures
        (r.0@, r.1) == target_words(*target, lights@),
{
    match target {
        PresetTarget::Everything => (owned("All lights"), false),
        PresetTarget::Light { id } => match position_of(lights, id) {
            Some(i) => (lights[i].label.clone(), false),
            None => (owned(id.as_str()), true),
        },
    }
}

/// The text that stands for a preset wherever its name may change.
pub fn preset_slug_display(id: &PresetId) -> (r: &str)
    ensures
        r@ == id@,
{
    id.as_str()
}

/// The name that a user typed, if there is one.
pub fn entered_name(text: &str) -> (r: Option<String>)
    ensures
        match r {
            Some(name) => name@ == trimmed(text@) && trimmed(text@).len() > 0,
            None => trimmed(text@).len() == 0,
        },
{
    let name = trim(text);
    if name.as_str().is_empty() {
        None
    } else {
        Some(name)
    }
}

/// What the user is doing with the list of presets.
#[derive(Debug)]
pub struct PresetEditor {
    /// A new preset is being named.
    pub saving: bool,
    pub save_name: String,
    /// The preset that is being renamed.
    pub editing: Option<PresetId>,
    pub edit_name: String,
    /// The preset whose deletion has to be confirmed.
    pub confirming_delete: Option<PresetId>,
    /// Counts the times that the list has to be fetched.
    pub refresh: u32,
}

fn is_same(a: &Option<PresetId>, b: &PresetId) -> (r: bool)
    ensures
        r == (a matches Some(id) && id@ == b@),
{
    match a {
        Some(id) => id.same(b),
        None => false,
    }
}

impl PresetEditor {
    /// Nothing is being done.
    pub fn new() -> (r: Self)
        ensures
            !r.saving,
            r.save_name@.len() == 0,
            r.editing is None,
            r.edit_name@.len() == 0,
            r.confirming_delete is None,
            r.refresh == 0,
    {
        PresetEditor {
            saving: false,
            save_name: String::new(),
            editing: None,
            edit_name: String::new(),
            confirming_delete: None,
            refresh: 0,
        }
    }

    /// A preset is being renamed.
    pub fn is_editing(&self, id: &PresetId) -> (r: bool)
        ensures
            r == (self.editing matches Some(other) && other@ == id@),
    {
        is_same(&self.editing, id)
    }

    /// The deletion of a preset has to be confirmed.
    pub fn is_confirming(&self, id: &PresetId) -> (r: bool)
        ensures
            r == (self.confirming_delete matches Some(other) && other@ == id@),
    {
        is_same(&self.confirming_delete, id)
    }

    /// The user wants to save a preset.
    pub fn start_saving(&mut self)
        ensures
            *final(self) == (PresetEditor { saving: true, confirming_delete: None, ..*old(self) }),
    {
        self.confirming_delete = None;
        self.saving = true;
    }

    /// The user no longer wants to save a preset.
    pub fn cancel_saving(&mut self)
        ensures
            *final(self) == (PresetEditor { saving: false, ..*old(self) }),
    {
        self.saving = false;
    }

    /// A preset was saved.
    pub fn saved(&mut self)
        ensures
            !final(self).saving,
            final(self).save_name@.len() == 0,
            final(self).editing == old(self).editing,
            final(self).edit_name == old(self).edit_name,
            final(self).confirming_delete == old(self).confirming_delete,
            final(self).refresh == old(self).refresh.wrapping_add(1),
    {
        self.save_name = String::new();
        self.saving = false;
        self.refresh = self.refresh.wrapping_add(1);
    }

    /// The user wants to rename a preset.
    pub fn start_editing(&mut self, id: &PresetId, name: &String)
        ensures
            *final(self) == (PresetEditor {
                editing: Some(*id),
                edit_name: *name,
                confirming_delete: None,
                ..*old(self)
            }),
    {
        self.edit_name = name.clone();
        self.confirming_delete = None;
        self.editing = Some(id.clone());
    }

    /// The user no longer wants to rename a preset.
    pub fn cancel_editing(&mut self)
        ensures
            *final(self) == (PresetEditor { editing: None, ..*old(self) }),
    {
        self.editing = None;
    }

    /// A preset was renamed.
    pub fn renamed(&mut self)
        ensures
            *final(self) == (PresetEditor {
                editing: None,
                refresh: old(self).refresh.wrapping_add(1),
                ..*old(self)
            }),
    {
        self.editing = None;
        self.refresh = self.refresh.wrapping_add(1);
    }

    /// The user wants to delete a preset. Returns whether that was confirmed: the
    /// first time only asks.
    pub fn press_delete(&mut self, id: &PresetId) -> (r: bool)
        ensures
            r == (old(self).confirming_delete matches Some(other) && other@ == id@),
            *final(self) == if r {
                *old(self)
            } else {
                PresetEditor { confirming_delete: Some(*id), ..*old(self) }
            },
    {
        if is_same(&self.confirming_delete, id) {
            return true;
        }
        self.confirming_delete = Some(id.clone());
        false
    }

    /// A preset was deleted.
    pub fn deleted(&mut self)
        ensures
            *final(self) == (PresetEditor {
                confirming_delete: None,
                refresh: old(self).refresh.wrapping_add(1),
                ..*old(self)
            }),
    {
        self.confirming_delete = None;
        self.refresh = self.refresh.wrapping_add(1);
    }
}

/// An animation is found by a search, whatever the case of ASCII letters.
pub open spec fn is_found(item: AnimationSummary, query: Seq<char>) -> bool {
    let wanted = lower_text(trimmed(query));
    wanted.len() == 0 || occurs(lower_text(item.name@), wanted)
}

/// The ones among the first `n` animations that a search finds.
pub open spec fn found_among(items: Seq<AnimationSummary>, query: Seq<char>, n: int) -> Seq<
    AnimationSummary,
>
    decreases n,
{
    if n <= 0 {
        Seq::empty()
    } else {
        let head = found_among(items, query, n - 1);
        if is_found(items[n - 1], query) {
            head.push(items[n - 1])
        } else {
            head
        }
    }
}

/// Finds animations by a part of their names, in their order.
pub fn filtered_animations(items: &[AnimationSummary], query: &str) -> (r: Vec<AnimationSummary>)
    ensures
        r@ == found_among(items@, query@, items@.len() as int),
{
    let wanted = trim(query);
    let wanted = chars_of(wanted.as_str());
    let mut lower = String::new();
    push_lower(&mut lower, wanted.as_slice());
    assert(lower@ =~= lower_text(trimmed(query@)));
    let wanted = chars_of(lower.as_str());
    let mut r: Vec<AnimationSummary> = Vec::new();
    let mut n: usize = 0;
    while n < items.len()
        invariant
            n <= items@.len(),
            wanted@ == lower_text(trimmed(query@)),
            r@ == found_among(items@, query@, n as int),
        decreases items.len() - n,
    {
        let name = chars_of(items[n].name.as_str());
        let mut lower = String::new();
        push_lower(&mut lower, name.as_slice());
        assert(lower@ =~= lower_text(items@[n as int].name@));
        let name = chars_of(lower.as_str());
        if wanted.len() == 0 || contains(name.as_slice(), wanted.as_slice()) {
            r.push(items[n].clone());
        }
        n += 1;
    }
    r
}

/// A number that a user typed, held within limits; none where it is no number.
pub fn entered_number(text: &str, min: u8, max: u8) -> (r: Option<u8>)
    requires
        min <= max,
    ensures
        match number(text@, 10, 255) {
            Some(value) => r == Some(
                if value < min {
                    min
                } else if value > max {
                    max
                } else {
                    value as u8
                },
            ),
            None => r is None,
        },
{
    let digits = chars_of(text);
    match parse_number(digits.as_slice(), 10, 255) {
        Some(value) => {
            let value: u8 = value as u8;
            Some(
                if value < min {
                    min
                } else if value > max {
                    max
                } else {
                    value
                },
            )
        },
        None => None,
    }
}

/// The controls for a playback that the user set up: the animation's own loops
/// are overridden, the rest is left at its defaults.
pub fn play_options(speed: Single, fps: u8, bri_scale: Single, looping: bool) -> (r: PlaybackOptions)
    ensures
        r == (PlaybackOptions {
            speed,
            fps,
            bri_scale,
            loop_override: Some(looping),
            max_loops: 0,
            revert_on_finish: true,
        }),
{
    PlaybackOptions {
        speed,
        fps,
        bri_scale,
        loop_override: Some(looping),
        max_loops: 0,
        revert_on_finish: true,
    }
}

/// The place of the animation that is selected in a list, if it is there.
pub fn chosen_animation(items: &[AnimationSummary], selected: &Option<AnimationId>) -> (r: Option<
    usize,
>)
    ensures
        match r {
            Some(i) => {
                &&& i < items@.len()
                &&& selected matches Some(id) && items@[i as int].id@ == id@ && forall|j: int|
                    0 <= j < i ==> (#[trigger] items@[j]).id@ != id@
            },
            None => selected matches Some(id) ==> forall|j: int|
                0 <= j < items@.len() ==> (#[trigger] items@[j]).id@ != id@,
        },
{
    if let Some(id) = selected {
        let mut i: usize = 0;
        while i < items.len()
            invariant
                i <= items@.len(),
                *selected == Some(*id),
                forall|j: int| 0 <= j < i ==> (#[trigger] items@[j]).id@ != id@,
            decreases items.len() - i,
        {
            if items[i].id.same(id) {
                return Some(i);
            }
            i += 1;
        }
    }
    None
}

/// A search finds the animations whose name holds what is searched for, whatever the case
/// of its letters and the white space around it.
pub proof fn animations_are_found_by_part_of_their_name(
    item: AnimationSummary,
    before: Seq<char>,
    part: Seq<char>,
    after: Seq<char>,
)
    requires
        is_blank(before),
        is_blank(after),
        part.len() > 0 ==> !is_white_space(part[0]) && !is_white_space(part.last()),
    ensures
        is_found(item, before + part + after) <==> part.len() == 0 || exists|
            head: Seq<char>,
            tail: Seq<char>,
        | lower_text(item.name@) == #[trigger] (head + lower_text(part) + tail),
{
    white_space_is_trimmed_off(before, part, after);
    let name = lower_text(item.name@);
    let wanted = lower_text(part);
    if occurs(name, wanted) {
        what_occurs_is_a_part(name, wanted);
    }
    if exists|head: Seq<char>, tail: Seq<char>| name == #[trigger] (head + wanted + tail) {
        let (head, tail) = choose|head: Seq<char>, tail: Seq<char>|
            name == #[trigger] (head + wanted + tail);
        parts_occur(head, wanted, tail);
    }
}

/// A search keeps what it finds, in its order, and nothing else.
pub proof fn searches_keep_what_they_find(items: Seq<AnimationSummary>, query: Seq<char>, n: int)
    requires
        0 <= n <= items.len(),
    ensures
        found_among(items, query, n) == items.take(n).filter(
            |item: AnimationSummary| is_found(item, query),
        ),
    decreases n,
{
    reveal(Seq::filter);
    if n > 0 {
        searches_keep_what_they_find(items, query, n - 1);
        assert(items.take(n).drop_last() =~= items.take(n - 1));
    }
}

/// A preset's light is called by its label where it is known, and else by its identifier,
/// as one that is missing.
pub proof fn targets_are_called_by_their_label(
    lights: Seq<LightSnapshot>,
    id: LightId,
    i: int,
)
    ensures
        target_words(PresetTarget::Everything, lights) == ("All lights"@, false),
        0 <= i < lights.len() && lights[i].id@ == id@ && (forall|j: int|
            0 <= j < i ==> (#[trigger] lights[j]).id@ != id@) ==> target_words(
            PresetTarget::Light { id },
            lights,
        ) == (lights[i].label@, false),
        (forall|j: int| 0 <= j < lights.len() ==> (#[trigger] lights[j]).id@ != id@)
            ==> target_words(PresetTarget::Light { id }, lights) == (id@, true),
{
    find_light_is_first(lights, id@);
}

} // verus!
