//! Requests that concern presets and the list of animations.
use vstd::prelude::*;
use vstd::string::StringExecFns;
use crate::animation::{Animation, AnimationSummary};
use crate::mode::Mode;
use crate::order::comes_before;
use crate::playback::{current_mode, target_models};
use crate::preset::{
    copy_entries, copy_presets, preset_models, preset_slug, slug_of_name,
    slugs_are_valid_identifiers, Preset, PresetEntry, PresetId, PresetModel, PresetTarget,
};
use crate::registry::{distinct, places, selected, selected_in_range, selects, Registry};
use crate::roles::{picks, selection_is_exact};
use crate::selector::Selector;
use crate::slug::{is_slug, is_slug_char};
use crate::state::{ConnState, LightSnapshot};
use crate::text::{decimal, decimal_reads_back, decimals_differ, owned, push_decimal, trim, trimmed};
use crate::world::{find_light, find_light_is_first, found_at};

verus! {

/// The entry that captures a light, if it can be captured: a connected light with
/// a mode.
pub open spec fn captured(light: LightSnapshot) -> Option<PresetEntry> {
    match current_mode(light) {
        Some(mode) => if light.conn == ConnState::Connected {
            Some(PresetEntry { target: PresetTarget::Light { id: light.id }, mode })
        } else {
            None
        },
        None => None,
    }
}

/// The entries that capture the first `n` of the chosen lights.
pub open spec fn captures(lights: Seq<LightSnapshot>, chosen: Seq<int>, n: int) -> Seq<PresetEntry>
    decreases n,
{
    if n <= 0 {
        Seq::empty()
    } else {
        let head = captures(lights, chosen, n - 1);
        match captured(lights[chosen[n - 1]]) {
            Some(entry) => head.push(entry),
            None => head,
        }
    }
}

/// The entries that capture the selected lights.
pub open spec fn capture_of(lights: Seq<LightSnapshot>, selector: Selector) -> Seq<PresetEntry> {
    let chosen = selected(lights, selector, lights.len() as int);
    captures(lights, chosen, chosen.len() as int)
}

/// A preset has an identifier.
pub open spec fn taken(presets: Seq<Preset>, id: Seq<char>) -> bool {
    exists|k: int| 0 <= k < presets.len() && (#[trigger] presets[k]).id@ == id
}

/// The `k`-th identifier to try for a slug: itself first, then with a number
/// behind it.
pub open spec fn candidate(base: Seq<char>, k: int) -> Seq<char> {
    if k <= 1 {
        base
    } else {
        base + seq!['-'] + decimal(k as nat)
    }
}

proof fn candidates_differ(base: Seq<char>, j: int, k: int)
    requires
        1 <= j < k,
    ensures
        candidate(base, j) != candidate(base, k),
{
    decimal_reads_back(k as nat);
    let b = candidate(base, k);
    if j == 1 {
        assert(b.len() > base.len());
    } else {
        let a = candidate(base, j);
        decimals_differ(j as nat, k as nat);
        let n = base.len() as int + 1;
        assert(a.skip(n) =~= decimal(j as nat));
        assert(b.skip(n) =~= decimal(k as nat));
    }
}

proof fn candidates_are_slugs(base: Seq<char>, k: int)
    requires
        is_slug(base),
    ensures
        is_slug(candidate(base, k)),
{
    if k > 1 {
        decimal_reads_back(k as nat);
        let c = candidate(base, k);
        assert forall|i: int| 0 <= i < c.len() implies is_slug_char(#[trigger] c[i]) by {
            if i < base.len() {
                assert(c[i] == base[i]);
            } else if i > base.len() {
                assert(c[i] == decimal(k as nat)[i - base.len() - 1]);
            }
        }
    }
}

/// As many identifiers can be taken as there are presets, and no more.
proof fn too_few_presets(presets: Seq<Preset>, base: Seq<char>, k: int)
    requires
        k >= 0,
        forall|j: int| 1 <= j <= k ==> taken(presets, #[trigger] candidate(base, j)),
    ensures
        k <= presets.len(),
    decreases k,
{
    if k > 0 {
        assert(taken(presets, candidate(base, k)));
        let p = choose|p: int|
            0 <= p < presets.len() && (#[trigger] presets[p]).id@ == candidate(base, k);
        let rest = presets.remove(p);
        assert forall|j: int| 1 <= j <= k - 1 implies taken(
            rest,
            #[trigger] candidate(base, j),
        ) by {
            candidates_differ(base, j, k);
            assert(taken(presets, candidate(base, j)));
            let q = choose|q: int|
                0 <= q < presets.len() && (#[trigger] presets[q]).id@ == candidate(base, j);
            if q < p {
                assert(rest[q] == presets[q]);
            } else {
                assert(rest[q - 1] == presets[q]);
            }
        }
        too_few_presets(rest, base, k - 1);
    }
}

/// The place of the first preset with an identifier, or the number of presets.
pub open spec fn find_preset(presets: Seq<Preset>, id: Seq<char>) -> int
    decreases presets.len(),
{
    if presets.len() == 0 {
        0
    } else if presets[0].id@ == id {
        0
    } else {
        1 + find_preset(presets.drop_first(), id)
    }
}

/// Where the first preset with an identifier is, if there is one.
pub proof fn preset_at(presets: Seq<Preset>, id: Seq<char>, i: int)
    requires
        0 <= i <= presets.len(),
        i < presets.len() ==> presets[i].id@ == id,
        forall|j: int| 0 <= j < i ==> (#[trigger] presets[j]).id@ != id,
    ensures
        find_preset(presets, id) == i,
    decreases presets.len(),
{
    if i > 0 {
        let rest = presets.drop_first();
        assert(presets[0].id@ != id);
        assert forall|j: int| 0 <= j < i - 1 implies (#[trigger] rest[j]).id@ != id by {
            assert(rest[j] == presets[j + 1]);
        }
        preset_at(rest, id, i - 1);
    }
}

/// The words for a preset that is not known.
pub open spec fn unknown_preset(id: Seq<char>) -> Seq<char> {
    "preset "@ + id + " was not found"@
}

/// An entry of a preset is for a light.
pub open spec fn covers(entry: PresetEntry, lights: Seq<LightSnapshot>, i: int) -> bool {
    match entry.target {
        PresetTarget::Everything => lights[i].conn == ConnState::Connected,
        PresetTarget::Light { id } => find_light(lights, id@) == i,
    }
}

/// The mode that the first `n` entries of a preset set a light to: that of the
/// last one that is for it.
pub open spec fn assigned(
    entries: Seq<PresetEntry>,
    lights: Seq<LightSnapshot>,
    i: int,
    n: int,
) -> Option<Mode>
    decreases n,
{
    if n <= 0 {
        None
    } else if covers(entries[n - 1], lights, i) {
        Some(entries[n - 1].mode)
    } else {
        assigned(entries, lights, i, n - 1)
    }
}

/// What recalling a preset sets the first `n` lights to, in their order.
pub open spec fn assignments(
    entries: Seq<PresetEntry>,
    lights: Seq<LightSnapshot>,
    n: int,
) -> Seq<(int, Mode)>
    decreases n,
{
    if n <= 0 {
        Seq::empty()
    } else {
        let head = assignments(entries, lights, n - 1);
        match assigned(entries, lights, n - 1, entries.len() as int) {
            Some(mode) => head.push((n - 1, mode)),
            None => head,
        }
    }
}

/// Describes a preset that is not known.
fn unknown_preset_message(id: &PresetId) -> (r: String)
    ensures
        r@ == unknown_preset(id@),
{
    let mut text = owned("preset ");
    text.append(id.as_str());
    text.append(" was not found");
    text
}

impl Registry {
    /// Lists all loaded animations in identifier order.
    pub fn list_animations(&self) -> (r: Vec<AnimationSummary>)
        requires
            self.wf(),
        ensures
            forall|i: int, j: int|
                0 <= i < j < r@.len() ==> comes_before(
                    (#[trigger] r@[i]).id@,
                    (#[trigger] r@[j]).id@,
                ),
            r@ == self.animation_list().map_values(
                |animation: Animation| animation.spec_summary(),
            ),
    {
        let mut r: Vec<AnimationSummary> = Vec::new();
        let mut i: usize = 0;
        while i < self.animations.len()
            invariant
                i <= self.animations@.len(),
                r@ == self.animations@.take(i as int).map_values(
                    |animation: Animation| animation.spec_summary(),
                ),
            decreases self.animations.len() - i,
        {
            r.push(self.animations[i].summary());
            assert(r@ =~= self.animations@.take(i + 1).map_values(
                |animation: Animation| animation.spec_summary(),
            ));
            i += 1;
        }
        assert(self.animations@.take(i as int) =~= self.animations@);
        assert forall|i: int, j: int| 0 <= i < j < r@.len() implies comes_before(
            (#[trigger] r@[i]).id@,
            (#[trigger] r@[j]).id@,
        ) by {
            assert(comes_before(self.animations@[i].id@, self.animations@[j].id@));
        }
        r
    }

    /// Lists presets in their user-defined order.
    pub fn list_presets(&self) -> (r: Vec<Preset>)
        ensures
            preset_models(r@) == preset_models(self.preset_list()),
    {
        copy_presets(self.presets.as_slice())
    }

    /// The place of the preset with an identifier.
    pub fn preset_index(&self, id: &PresetId) -> (r: Option<usize>)
        ensures
            match r {
                Some(i) => i == find_preset(self.preset_list(), id@) && i
                    < self.preset_list().len() && self.preset_list()[i as int].id@ == id@,
                None => find_preset(self.preset_list(), id@) == self.preset_list().len(),
            },
    {
        let mut i: usize = 0;
        while i < self.presets.len()
            invariant
                i <= self.presets@.len(),
                forall|j: int| 0 <= j < i ==> (#[trigger] self.presets@[j]).id@ != id@,
            decreases self.presets.len() - i,
        {
            if self.presets[i].id.same(id) {
                proof {
                    preset_at(self.presets@, id@, i as int);
                }
                return Some(i);
            }
            i += 1;
        }
        proof {
            preset_at(self.presets@, id@, i as int);
        }
        None
    }

    /// Captures the modes of the selected lights that are connected.
    pub fn capture(&self, selector: &Selector) -> (r: Vec<PresetEntry>)
        ensures
            r@ == capture_of(self.known(), *selector),
    {
        let indices = self.target_indices(selector);
        let ghost chosen = selected(self.known(), *selector, self.known().len() as int);
        let mut entries: Vec<PresetEntry> = Vec::new();
        let mut k: usize = 0;
        assert(chosen.len() == indices@.len()) by {
            assert(places(indices@) == chosen);
        }
        while k < indices.len()
            invariant
                k <= indices@.len(),
                places(indices@) == chosen,
                forall|i: int| 0 <= i < indices@.len() ==> (#[trigger] indices@[i])
                    < self.lights@.len(),
                entries@ == captures(self.lights@, chosen, k as int),
            decreases indices.len() - k,
        {
            let light = &self.lights[indices[k]];
            assert(chosen[k as int] == indices@[k as int]);
            if light.conn == ConnState::Connected {
                let mode = match light.confirmed {
                    Some(mode) => Some(mode),
                    None => light.desired,
                };
                if let Some(mode) = mode {
                    entries.push(
                        PresetEntry { target: PresetTarget::Light { id: light.id.clone() }, mode },
                    );
                }
            }
            k += 1;
        }
        entries
    }

    fn id_taken(&self, id: &String) -> (r: bool)
        ensures
            r == taken(self.preset_list(), id@),
    {
        let mut i: usize = 0;
        while i < self.presets.len()
            invariant
                i <= self.presets@.len(),
                forall|j: int| 0 <= j < i ==> (#[trigger] self.presets@[j]).id@ != id@,
            decreases self.presets.len() - i,
        {
            if self.presets[i].id.0 == *id {
                return true;
            }
            i += 1;
        }
        false
    }

    /// Finds an identifier for a slug that no preset has: the slug itself, or the
    /// slug with the least number from two on behind it.
    fn free_id(&self, base: &String) -> (r: (String, Ghost<int>))
        requires
            self.preset_list().len() < u64::MAX,
        ensures
            r.1@ >= 1,
            r.0@ == candidate(base@, r.1@),
            !taken(self.preset_list(), r.0@),
            forall|j: int|
                1 <= j < r.1@ ==> taken(self.preset_list(), #[trigger] candidate(base@, j)),
    {
        let mut id = base.clone();
        let mut k: u64 = 1;
        while self.id_taken(&id)
            invariant
                1 <= k,
                self.presets@.len() < u64::MAX,
                id@ == candidate(base@, k as int),
                forall|j: int|
                    1 <= j < k ==> taken(self.presets@, #[trigger] candidate(base@, j)),
            decreases self.presets@.len() + 1 - k,
        {
            proof {
                too_few_presets(self.presets@, base@, k as int);
            }
            k = k + 1;
            id = base.clone();
            id.push('-');
            push_decimal(&mut id, k);
            assert(id@ =~= candidate(base@, k as int));
        }
        (id, Ghost(k as int))
    }

    /// Captures the current modes of selected connected lights as a preset. Fails
    /// for an empty name, and where no mode can be captured.
    pub fn save_preset(&mut self, name: &str, selector: &Selector) -> (r: Result<Preset, String>)
        requires
            old(self).preset_list().len() < u64::MAX,
        ensures
            old(self).wf() ==> final(self).wf(),
            final(self).same_world(*old(self)),
            final(self).animation_list() == old(self).animation_list(),
            final(self).next_id() == old(self).next_id(),
            ({
                let entries = capture_of(old(self).known(), *selector);
                match r {
                    Ok(preset) => {
                        &&& trimmed(name@).len() > 0
                        &&& entries.len() > 0
                        &&& preset.name@ == trimmed(name@)
                        &&& preset.entries@ == entries
                        &&& !taken(old(self).preset_list(), preset.id@)
                        &&& exists|k: int|
                            #![trigger candidate(slug_of_name(trimmed(name@)), k)]
                            {
                                let base = slug_of_name(trimmed(name@));
                                &&& k >= 1
                                &&& preset.id@ == candidate(base, k)
                                &&& forall|j: int|
                                    1 <= j < k ==> taken(
                                        old(self).preset_list(),
                                        #[trigger] candidate(base, j),
                                    )
                            }
                        &&& preset_models(final(self).preset_list()) == preset_models(
                            old(self).preset_list(),
                        ).push(preset@)
                    },
                    Err(message) => {
                        &&& message@ == if trimmed(name@).len() == 0 {
                            "preset name may not be empty"@
                        } else {
                            "no connected light modes could be captured"@
                        }
                        &&& trimmed(name@).len() == 0 || entries.len() == 0
                        &&& final(self).preset_list() == old(self).preset_list()
                    },
                }
            }),
    {
        let name = trim(name);
        if name.as_str().is_empty() {
            return Err(owned("preset name may not be empty"));
        }
        let entries = self.capture(selector);
        if entries.len() == 0 {
            return Err(owned("no connected light modes could be captured"));
        }
        let base = preset_slug(name.as_str());
        let (id, Ghost(k)) = self.free_id(&base);
        proof {
            slugs_are_valid_identifiers(name@);
            candidates_are_slugs(base@, k);
        }
        let preset = Preset { id: PresetId(id), name, entries };
        let copy = preset.clone();
        let ghost before = self.presets@;
        self.presets.push(preset);
        proof {
            assert(preset_models(self.presets@) =~= preset_models(before).push(copy@));
            assert(copy.id@ == candidate(base@, k));
        }
        Ok(copy)
    }

    /// Finds out what recalling a preset sets lights to. Later entries override
    /// earlier ones, lights that are not known are passed over, and an entry for
    /// everything is for the lights that are connected.
    pub fn recall_preset(&self, id: &PresetId) -> (r: Result<Vec<(usize, Mode)>, String>)
        ensures
            ({
                let presets = self.preset_list();
                let i = find_preset(presets, id@);
                match r {
                    Ok(targets) => i < presets.len() && target_models(targets@) == assignments(
                        presets[i].entries@,
                        self.known(),
                        self.known().len() as int,
                    ),
                    Err(message) => i == presets.len() && message@ == unknown_preset(id@),
                }
            }),
    {
        let index = match self.preset_index(id) {
            Some(index) => index,
            None => {
                return Err(unknown_preset_message(id));
            },
        };
        let entries = &self.presets[index].entries;
        let mut targets: Vec<(usize, Mode)> = Vec::new();
        let mut i: usize = 0;
        assert(target_models(targets@) =~= Seq::<(int, Mode)>::empty());
        while i < self.lights.len()
            invariant
                i <= self.lights@.len(),
                target_models(targets@) == assignments(entries@, self.lights@, i as int),
            decreases self.lights.len() - i,
        {
            if let Some(mode) = self.assigned_mode(entries, i) {
                let ghost before = targets@;
                targets.push((i, mode));
                assert(target_models(targets@) =~= target_models(before).push((i as int, mode)));
            }
            i += 1;
        }
        Ok(targets)
    }

    fn assigned_mode(&self, entries: &Vec<PresetEntry>, i: usize) -> (r: Option<Mode>)
        requires
            i < self.known().len(),
        ensures
            r == assigned(entries@, self.known(), i as int, entries@.len() as int),
    {
        let mut mode: Option<Mode> = None;
        let mut n: usize = 0;
        while n < entries.len()
            invariant
                n <= entries@.len(),
                i < self.lights@.len(),
                mode == assigned(entries@, self.lights@, i as int, n as int),
            decreases entries.len() - n,
        {
            let entry = &entries[n];
            let chosen = match &entry.target {
                PresetTarget::Everything => self.lights[i].conn == ConnState::Connected,
                PresetTarget::Light { id } => match self.index_of(id) {
                    Some(index) => index == i,
                    None => false,
                },
            };
            if chosen {
                mode = Some(entry.mode);
            }
            n += 1;
        }
        mode
    }

    /// Overwrites a preset's entries with a fresh capture, keeping name and id.
    pub fn recapture_preset(&mut self, id: &PresetId, selector: &Selector) -> (r: Result<
        Preset,
        String,
    >)
        ensures
            old(self).wf() ==> final(self).wf(),
            final(self).same_world(*old(self)),
            final(self).animation_list() == old(self).animation_list(),
            final(self).next_id() == old(self).next_id(),
            ({
                let presets = old(self).preset_list();
                let i = find_preset(presets, id@);
                let entries = capture_of(old(self).known(), *selector);
                match r {
                    Ok(preset) => {
                        &&& i < presets.len()
                        &&& entries.len() > 0
                        &&& preset@ == (PresetModel { entries, ..presets[i]@ })
                        &&& preset_models(final(self).preset_list()) == preset_models(
                            presets,
                        ).update(i, preset@)
                    },
                    Err(message) => {
                        &&& message@ == if i == presets.len() {
                            unknown_preset(id@)
                        } else {
                            "no connected light modes could be captured"@
                        }
                        &&& i == presets.len() || entries.len() == 0
                        &&& final(self).preset_list() == presets
                    },
                }
            }),
    {
        let index = match self.preset_index(id) {
            Some(index) => index,
            None => {
                return Err(unknown_preset_message(id));
            },
        };
        let entries = self.capture(selector);
        if entries.len() == 0 {
            return Err(owned("no connected light modes could be captured"));
        }
        let preset = Preset {
            id: self.presets[index].id.clone(),
            name: self.presets[index].name.clone(),
            entries,
        };
        let copy = preset.clone();
        let ghost before = self.presets@;
        self.presets.set(index, preset);
        assert(preset_models(self.presets@) =~= preset_models(before).update(
            index as int,
            copy@,
        ));
        Ok(copy)
    }

    /// Renames a preset without changing its identifier. Fails for an empty name,
    /// and for a preset that is not known.
    pub fn rename_preset(&mut self, id: &PresetId, name: &str) -> (r: Result<(), String>)
        ensures
            old(self).wf() ==> final(self).wf(),
            final(self).same_world(*old(self)),
            final(self).animation_list() == old(self).animation_list(),
            final(self).next_id() == old(self).next_id(),
            ({
                let presets = old(self).preset_list();
                let i = find_preset(presets, id@);
                match r {
                    Ok(_) => {
                        &&& trimmed(name@).len() > 0
                        &&& i < presets.len()
                        &&& preset_models(final(self).preset_list()) == preset_models(
                            presets,
                        ).update(i, PresetModel { name: trimmed(name@), ..presets[i]@ })
                    },
                    Err(message) => {
                        &&& message@ == if trimmed(name@).len() == 0 {
                            "preset name may not be empty"@
                        } else {
                            unknown_preset(id@)
                        }
                        &&& trimmed(name@).len() == 0 || i == presets.len()
                        &&& final(self).preset_list() == presets
                    },
                }
            }),
    {
        let name = trim(name);
        if name.as_str().is_empty() {
            return Err(owned("preset name may not be empty"));
        }
        let index = match self.preset_index(id) {
            Some(index) => index,
            None => {
                return Err(unknown_preset_message(id));
            },
        };
        let preset = Preset {
            id: self.presets[index].id.clone(),
            name,
            entries: copy_entries(self.presets[index].entries.as_slice()),
        };
        let ghost before = self.presets@;
        let ghost renamed = preset@;
        self.presets.set(index, preset);
        assert(preset_models(self.presets@) =~= preset_models(before).update(
            index as int,
            renamed,
        ));
        Ok(())
    }

    /// Deletes a preset. Fails for one that is not known.
    pub fn delete_preset(&mut self, id: &PresetId) -> (r: Result<(), String>)
        ensures
            old(self).wf() ==> final(self).wf(),
            final(self).same_world(*old(self)),
            final(self).animation_list() == old(self).animation_list(),
            final(self).next_id() == old(self).next_id(),
            ({
                let presets = old(self).preset_list();
                let i = find_preset(presets, id@);
                match r {
                    Ok(_) => i < presets.len() && final(self).preset_list() == presets.remove(i),
                    Err(message) => {
                        &&& i == presets.len()
                        &&& message@ == unknown_preset(id@)
                        &&& final(self).preset_list() == presets
                    },
                }
            }),
    {
        let index = match self.preset_index(id) {
            Some(index) => index,
            None => {
                return Err(unknown_preset_message(id));
            },
        };
        let _ = self.presets.remove(index);
        Ok(())
    }
}

proof fn selected_are_those(lights: Seq<LightSnapshot>, selector: Selector, n: int, i: int)
    requires
        0 <= n <= lights.len(),
    ensures
        selected(lights, selector, n).contains(i) <==> 0 <= i < n && selects(
            selector,
            lights[i].id@,
        ),
    decreases n,
{
    if n > 0 {
        selected_are_those(lights, selector, n - 1, i);
        let head = selected(lights, selector, n - 1);
        let all = selected(lights, selector, n);
        if head.contains(i) {
            let k = choose|k: int| 0 <= k < head.len() && head[k] == i;
            assert(all[k] == i);
        }
        if all.contains(i) && i != n - 1 {
            let k = choose|k: int| 0 <= k < all.len() && all[k] == i;
            assert(head[k] == i);
        }
        if i == n - 1 && selects(selector, lights[i].id@) {
            assert(all[head.len() as int] == i);
        }
    }
}

proof fn assigned_by_prefix(
    entries: Seq<PresetEntry>,
    more: PresetEntry,
    lights: Seq<LightSnapshot>,
    i: int,
    n: int,
)
    requires
        0 <= n <= entries.len(),
    ensures
        assigned(entries.push(more), lights, i, n) == assigned(entries, lights, i, n),
    decreases n,
{
    if n > 0 {
        assigned_by_prefix(entries, more, lights, i, n - 1);
        assert(entries.push(more)[n - 1] == entries[n - 1]);
    }
}

proof fn captures_assign(
    lights: Seq<LightSnapshot>,
    later: Seq<LightSnapshot>,
    chosen: Seq<int>,
    n: int,
    i: int,
)
    requires
        distinct(later),
        still_there(lights, later),
        0 <= n <= chosen.len(),
        0 <= i < later.len(),
        forall|k: int| 0 <= k < chosen.len() ==> 0 <= #[trigger] chosen[k] < lights.len(),
    ensures
        assigned(
            captures(lights, chosen, n),
            later,
            i,
            captures(lights, chosen, n).len() as int,
        ) == if i < lights.len() && captured(lights[i]) is Some && chosen.take(n).contains(i) {
            current_mode(lights[i])
        } else {
            None
        },
    decreases n,
{
    if n > 0 {
        captures_assign(lights, later, chosen, n - 1, i);
        let head = captures(lights, chosen, n - 1);
        let c = chosen[n - 1];
        let before = chosen.take(n - 1);
        let after = chosen.take(n);
        if before.contains(i) {
            let k = choose|k: int| 0 <= k < before.len() && before[k] == i;
            assert(after[k] == i);
        }
        if after.contains(i) && c != i {
            let k = choose|k: int| 0 <= k < after.len() && after[k] == i;
            assert(before[k] == i);
        }
        if c == i {
            assert(after[n - 1] == i);
        }
        match captured(lights[c]) {
            Some(entry) => {
                assigned_by_prefix(head, entry, later, i, head.len() as int);
                found_at(later, lights[c].id@, c);
                assert(covers(entry, later, i) <==> i == c);
            },
            None => {},
        }
    } else {
        assert(!chosen.take(0).contains(i));
    }
}

/// Lights are still in their places, whatever became of them, and others may have
/// come after them.
pub open spec fn still_there(lights: Seq<LightSnapshot>, later: Seq<LightSnapshot>) -> bool {
    &&& lights.len() <= later.len()
    &&& forall|i: int| 0 <= i < lights.len() ==> (#[trigger] later[i]).id@ == lights[i].id@
}

/// Recalling a preset sets every light that was captured to the mode that it had
/// then, whatever became of the lights since, and no other light to anything.
pub proof fn recalling_a_capture_restores_it(
    lights: Seq<LightSnapshot>,
    later: Seq<LightSnapshot>,
    selector: Selector,
    i: int,
)
    requires
        distinct(later),
        still_there(lights, later),
        0 <= i < later.len(),
    ensures
        ({
            let entries = capture_of(lights, selector);
            assigned(entries, later, i, entries.len() as int) == if i < lights.len() && selects(
                selector,
                lights[i].id@,
            ) && lights[i].conn == ConnState::Connected {
                current_mode(lights[i])
            } else {
                None
            }
        }),
{
    let n = lights.len() as int;
    let chosen = selected(lights, selector, n);
    selected_in_range(lights, selector, n);
    captures_assign(lights, later, chosen, chosen.len() as int, i);
    if i < n {
        selected_are_those(lights, selector, n, i);
    }
    assert(chosen.take(chosen.len() as int) =~= chosen);
}

/// A preset that is deleted is gone where no other has its identifier.
pub proof fn deleted_presets_are_gone(presets: Seq<Preset>, id: Seq<char>)
    requires
        find_preset(presets, id) < presets.len(),
        forall|i: int, j: int|
            0 <= i < j < presets.len() ==> (#[trigger] presets[i]).id@ != (
            #[trigger] presets[j]).id@,
    ensures
        !taken(presets.remove(find_preset(presets, id)), id),
{
    find_preset_is_first(presets, id);
    let p = find_preset(presets, id);
    let rest = presets.remove(p);
    if taken(rest, id) {
        let k = choose|k: int| 0 <= k < rest.len() && (#[trigger] rest[k]).id@ == id;
        if k < p {
            assert(rest[k] == presets[k]);
        } else {
            assert(rest[k] == presets[k + 1]);
            assert(presets[p].id@ != presets[k + 1].id@);
        }
    }
}

proof fn find_preset_is_first(presets: Seq<Preset>, id: Seq<char>)
    ensures
        0 <= find_preset(presets, id) <= presets.len(),
        find_preset(presets, id) < presets.len() ==> presets[find_preset(presets, id)].id@ == id,
        forall|j: int| 0 <= j < find_preset(presets, id) ==> (#[trigger] presets[j]).id@ != id,
    decreases presets.len(),
{
    if presets.len() > 0 && presets[0].id@ != id {
        let rest = presets.drop_first();
        find_preset_is_first(rest, id);
        assert forall|j: int| 0 <= j < find_preset(presets, id) implies (
        #[trigger] presets[j]).id@ != id by {
            if j > 0 {
                assert(rest[j - 1] == presets[j]);
            }
        }
    }
}

/// An entry of a preset is meant for a light: it is for everything and the light is
/// connected, or it names the light, connected or not.
pub open spec fn is_meant_for(entry: PresetEntry, light: LightSnapshot) -> bool {
    ||| entry.target is Everything && light.conn == ConnState::Connected
    ||| entry.target matches PresetTarget::Light { id } && id@ == light.id@
}

proof fn covers_are_meant(entry: PresetEntry, lights: Seq<LightSnapshot>, i: int)
    requires
        distinct(lights),
        0 <= i < lights.len(),
    ensures
        covers(entry, lights, i) <==> is_meant_for(entry, lights[i]),
{
    match entry.target {
        PresetTarget::Everything => {},
        PresetTarget::Light { id } => {
            find_light_is_first(lights, id@);
            if id@ == lights[i].id@ {
                found_at(lights, id@, i);
            }
        },
    }
}

proof fn assigned_is_last(
    entries: Seq<PresetEntry>,
    lights: Seq<LightSnapshot>,
    i: int,
    last: int,
    n: int,
)
    requires
        distinct(lights),
        0 <= i < lights.len(),
        -1 <= last < n <= entries.len() || (last == -1 && n == 0),
        last >= 0 ==> is_meant_for(entries[last], lights[i]),
        forall|e: int| last < e < n ==> !is_meant_for(#[trigger] entries[e], lights[i]),
    ensures
        assigned(entries, lights, i, n) == if last >= 0 {
            Some(entries[last].mode)
        } else {
            None
        },
    decreases n,
{
    if n > 0 {
        covers_are_meant(entries[n - 1], lights, i);
        if last < n - 1 {
            assigned_is_last(entries, lights, i, last, n - 1);
        }
    }
}

proof fn assignments_are_exact(entries: Seq<PresetEntry>, lights: Seq<LightSnapshot>, n: int)
    ensures
        forall|a: int, b: int|
            0 <= a < b < assignments(entries, lights, n).len() ==> (#[trigger] assignments(
                entries,
                lights,
                n,
            )[a]).0 < (#[trigger] assignments(entries, lights, n)[b]).0,
        forall|i: int, mode: Mode| #[trigger]
            assignments(entries, lights, n).contains((i, mode)) <==> 0 <= i < n && assigned(
                entries,
                lights,
                i,
                entries.len() as int,
            ) == Some(mode),
    decreases n,
{
    if n > 0 {
        assignments_are_exact(entries, lights, n - 1);
        let head = assignments(entries, lights, n - 1);
        let all = assignments(entries, lights, n);
        let here = assigned(entries, lights, n - 1, entries.len() as int);
        assert forall|i: int, mode: Mode| #[trigger] all.contains((i, mode)) <==> 0 <= i < n
            && assigned(entries, lights, i, entries.len() as int) == Some(mode) by {
            if head.contains((i, mode)) {
                let k = choose|k: int| 0 <= k < head.len() && head[k] == (i, mode);
                assert(all[k] == (i, mode));
            }
            if all.contains((i, mode)) && !head.contains((i, mode)) {
                let k = choose|k: int| 0 <= k < all.len() && all[k] == (i, mode);
                if k < head.len() {
                    assert(head[k] == (i, mode));
                }
            }
            if i == n - 1 && here == Some(mode) {
                assert(all[head.len() as int] == (i, mode));
            }
        }
        assert forall|a: int, b: int| 0 <= a < b < all.len() implies (#[trigger] all[a]).0 < (
        #[trigger] all[b]).0 by {
            assert(all[a] == head[a]);
            assert(head.contains((head[a].0, head[a].1)));
            if b < head.len() {
                assert(all[b] == head[b]);
            }
        }
    }
}

/// The places of lights, none of them twice, in their order.
pub open spec fn each_set_once(set: Seq<(int, Mode)>, n: int) -> bool {
    &&& forall|a: int| 0 <= a < set.len() ==> 0 <= (#[trigger] set[a]).0 < n
    &&& forall|a: int, b: int|
        0 <= a < b < set.len() ==> (#[trigger] set[a]).0 < (#[trigger] set[b]).0
}

/// Recalling a preset sets every light that some entry is meant for, and no other, to
/// the mode of the last such entry. Each light is set once, in the order of the lights.
pub proof fn presets_set_the_lights_they_mean(
    entries: Seq<PresetEntry>,
    lights: Seq<LightSnapshot>,
    i: int,
    last: int,
)
    requires
        distinct(lights),
        0 <= i < lights.len(),
        -1 <= last < entries.len(),
        last >= 0 ==> is_meant_for(entries[last], lights[i]),
        forall|e: int| last < e < entries.len() ==> !is_meant_for(#[trigger] entries[e], lights[i]),
    ensures
        ({
            let set = assignments(entries, lights, lights.len() as int);
            &&& forall|mode: Mode| #[trigger]
                set.contains((i, mode)) <==> last >= 0 && mode == entries[last].mode
            &&& each_set_once(set, lights.len() as int)
        }),
{
    let n = lights.len() as int;
    let set = assignments(entries, lights, n);
    assigned_is_last(entries, lights, i, last, entries.len() as int);
    assignments_are_exact(entries, lights, n);
    assert forall|mode: Mode| #[trigger]
        set.contains((i, mode)) <==> last >= 0 && mode == entries[last].mode by {}
    assert forall|a: int| 0 <= a < set.len() implies 0 <= (#[trigger] set[a]).0 < n by {
        assert(set.contains((set[a].0, set[a].1)));
    }
    assert(each_set_once(set, n));
}

/// A preset whose last entry is for everything sets every connected light to the mode of
/// that entry, whatever its other entries say.
pub proof fn everything_means_every_connected_light(
    entries: Seq<PresetEntry>,
    lights: Seq<LightSnapshot>,
    i: int,
)
    requires
        distinct(lights),
        0 <= i < lights.len(),
        lights[i].conn == ConnState::Connected,
        entries.len() > 0,
        entries.last().target is Everything,
    ensures
        assignments(entries, lights, lights.len() as int).contains((i, entries.last().mode)),
{
    presets_set_the_lights_they_mean(entries, lights, i, entries.len() - 1);
}

/// A light is captured under its own identifier with the mode that it confirmed, or else
/// the one that is desired of it, as long as it is connected.
pub open spec fn captures_light(entry: PresetEntry, light: LightSnapshot) -> bool {
    &&& light.conn == ConnState::Connected
    &&& entry.target matches PresetTarget::Light { id } && id == light.id
    &&& light.confirmed == Some(entry.mode) || (light.confirmed is None && light.desired == Some(
        entry.mode,
    ))
}

proof fn captures_are_exact(lights: Seq<LightSnapshot>, chosen: Seq<int>, n: int)
    requires
        0 <= n <= chosen.len(),
    ensures
        captures(lights, chosen, n).len() <= n,
        forall|entry: PresetEntry| #[trigger]
            captures(lights, chosen, n).contains(entry) <==> exists|k: int|
                0 <= k < n && captures_light(entry, lights[#[trigger] chosen[k]]),
    decreases n,
{
    if n > 0 {
        captures_are_exact(lights, chosen, n - 1);
        let head = captures(lights, chosen, n - 1);
        let all = captures(lights, chosen, n);
        let light = lights[chosen[n - 1]];
        assert forall|entry: PresetEntry| #[trigger] all.contains(entry) <==> exists|k: int|
            0 <= k < n && captures_light(entry, lights[#[trigger] chosen[k]]) by {
            assert(captures_light(entry, light) <==> captured(light) == Some(entry));
            if head.contains(entry) {
                let j = choose|j: int| 0 <= j < head.len() && head[j] == entry;
                assert(all[j] == entry);
            }
            if all.contains(entry) && !head.contains(entry) {
                let j = choose|j: int| 0 <= j < all.len() && all[j] == entry;
                if j < head.len() {
                    assert(head[j] == entry);
                }
                assert(captures_light(entry, lights[chosen[n - 1]]));
            }
            if exists|k: int| 0 <= k < n && captures_light(entry, lights[#[trigger] chosen[k]]) {
                let k = choose|k: int|
                    0 <= k < n && captures_light(entry, lights[#[trigger] chosen[k]]);
                if k < n - 1 {
                    assert(head.contains(entry));
                } else {
                    assert(all[head.len() as int] == entry);
                }
            }
        }
    }
}

/// A capture has an entry for exactly the connected lights that are selected and have a
/// mode, with that mode.
pub proof fn captures_hold_what_is_shown(
    lights: Seq<LightSnapshot>,
    selector: Selector,
    entry: PresetEntry,
)
    ensures
        capture_of(lights, selector).contains(entry) <==> exists|i: int|
            0 <= i < lights.len() && picks(selector, lights[i].id@) && captures_light(
                entry,
                #[trigger] lights[i],
            ),
{
    let n = lights.len() as int;
    let chosen = selected(lights, selector, n);
    selection_is_exact(lights, selector, n);
    captures_are_exact(lights, chosen, chosen.len() as int);
    let all = capture_of(lights, selector);
    if all.contains(entry) {
        let k = choose|k: int|
            0 <= k < chosen.len() && captures_light(entry, lights[#[trigger] chosen[k]]);
        let i = chosen[k];
        assert(chosen.contains(i));
        assert(captures_light(entry, lights[i]));
    }
    if exists|i: int|
        0 <= i < lights.len() && picks(selector, lights[i].id@) && captures_light(
            entry,
            #[trigger] lights[i],
        ) {
        let i = choose|i: int|
            0 <= i < lights.len() && picks(selector, lights[i].id@) && captures_light(
                entry,
                #[trigger] lights[i],
            );
        assert(chosen.contains(i));
        let k = choose|k: int| 0 <= k < chosen.len() && chosen[k] == i;
        assert(captures_light(entry, lights[chosen[k]]));
    }
}

/// The identifiers that are tried for a new preset are its slug, and after that the slug
/// with a dash and the numbers from two on.
pub proof fn candidates_are_numbered(base: Seq<char>, k: int)
    requires
        k >= 1,
    ensures
        candidate(base, 1) == base,
        k >= 2 ==> candidate(base, k) == base + "-"@ + decimal(k as nat),
{
    reveal_strlit("-");
    assert("-"@ =~= seq!['-']);
}

/// The entry that sets a light to the mode that it confirmed, or else to the one wished
/// for.
pub open spec fn entry_showing(light: LightSnapshot) -> PresetEntry {
    PresetEntry {
        target: PresetTarget::Light { id: light.id },
        mode: if light.confirmed is Some {
            light.confirmed->0
        } else {
            light.desired->0
        },
    }
}

proof fn captures_of_first(lights: Seq<LightSnapshot>, a: Seq<int>, b: Seq<int>, n: int)
    requires
        0 <= n <= a.len(),
        n <= b.len(),
        forall|k: int| 0 <= k < n ==> a[k] == b[k],
    ensures
        captures(lights, a, n) == captures(lights, b, n),
    decreases n,
{
    if n > 0 {
        captures_of_first(lights, a, b, n - 1);
    }
}

proof fn captures_among(lights: Seq<LightSnapshot>, selector: Selector, n: int)
    requires
        0 <= n <= lights.len(),
    ensures
        ({
            let chosen = selected(lights, selector, n);
            captures(lights, chosen, chosen.len() as int) == lights.take(n).filter(
                |light: LightSnapshot|
                    picks(selector, light.id@) && light.conn == ConnState::Connected && (
                    light.confirmed is Some || light.desired is Some),
            ).map_values(|light: LightSnapshot| entry_showing(light))
        }),
    decreases n,
{
    reveal(Seq::filter);
    let shows = |light: LightSnapshot|
        picks(selector, light.id@) && light.conn == ConnState::Connected && (light.confirmed is Some
            || light.desired is Some);
    let entry = |light: LightSnapshot| entry_showing(light);
    let chosen = selected(lights, selector, n);
    if n > 0 {
        captures_among(lights, selector, n - 1);
        let before = selected(lights, selector, n - 1);
        let head = lights.take(n - 1);
        let light = lights[n - 1];
        assert(lights.take(n).drop_last() =~= head);
        assert(selects(selector, light.id@) <==> picks(selector, light.id@));
        if selects(selector, light.id@) {
            captures_of_first(lights, chosen, before, before.len() as int);
            assert(chosen[chosen.len() - 1] == n - 1);
        }
        assert(head.filter(shows).push(light).map_values(entry) =~= head.filter(shows).map_values(
            entry,
        ).push(entry(light)));
    }
    assert(captures(lights, chosen, chosen.len() as int) =~= lights.take(n).filter(
        shows,
    ).map_values(entry));
}

/// The entries of a capture are in the order of the lights.
pub proof fn captures_keep_the_order_of_the_lights(lights: Seq<LightSnapshot>, selector: Selector)
    ensures
        capture_of(lights, selector) == lights.filter(
            |light: LightSnapshot|
                picks(selector, light.id@) && light.conn == ConnState::Connected && (light.confirmed
                    is Some || light.desired is Some),
        ).map_values(|light: LightSnapshot| entry_showing(light)),
{
    captures_among(lights, selector, lights.len() as int);
    assert(lights.take(lights.len() as int) =~= lights);
}

} // verus!
