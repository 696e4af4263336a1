//! The daemon's answers to requests: which identifiers it accepts, and the status
//! of what fails.
use vstd::prelude::*;
use vstd::string::StringExecFns;
use crate::animation::{AnimationId, PlaybackOptions, TargetBinding};
use crate::id::{id_fault, namespaced, LightId};
use crate::library::{capture_of, find_preset, unknown_preset};
use crate::playback::{began, find_animation, refusal, unknown_animation, Started};
use crate::preset::{preset_models, Preset, PresetId, PresetModel};
use crate::registry::Registry;
use crate::selector::Selector;
use crate::slug::is_slug;
use crate::text::{owned, trimmed};

verus! {

/// A request that failed: its status and the words about it.
#[derive(Debug)]
pub struct ApiError {
    pub status: u16,
    pub message: String,
}

impl ApiError {
    /// The request itself is wrong.
    pub fn bad_request(message: String) -> (r: Self)
        ensures
            r == (ApiError { status: 400, message }),
    {
        ApiError { status: 400, message }
    }

    /// The registry cannot serve the request.
    pub fn registry(message: String) -> (r: Self)
        ensures
            r == (ApiError { status: 503, message }),
    {
        ApiError { status: 503, message }
    }

    /// A light did not do what was asked.
    pub fn gateway(message: String) -> (r: Self)
        ensures
            r == (ApiError { status: 502, message }),
    {
        ApiError { status: 502, message }
    }

    /// Something that was asked for is not there.
    pub fn not_found(message: String) -> (r: Self)
        ensures
            r == (ApiError { status: 404, message }),
    {
        ApiError { status: 404, message }
    }

    /// The request does not go with the state of things.
    pub fn conflict(message: String) -> (r: Self)
        ensures
            r == (ApiError { status: 409, message }),
    {
        ApiError { status: 409, message }
    }
}

/// Reads the identifier of a light from a request.
pub fn parse_id(value: &str) -> (r: Result<LightId, ApiError>)
    ensures
        match r {
            Ok(id) => namespaced(value@) == Some(id@),
            Err(error) => namespaced(value@) is None && error.status == 400 && error.message@
                == id_fault(value@),
        },
{
    match LightId::parse(value) {
        Ok(id) => Ok(id),
        Err(error) => Err(ApiError::bad_request(error.message())),
    }
}

/// Reads the identifier of an animation from a request.
pub fn parse_animation_id(value: &str) -> (r: Result<AnimationId, ApiError>)
    ensures
        match r {
            Ok(id) => is_slug(value@) && id@ == value@,
            Err(error) => !is_slug(value@) && error.status == 400 && error.message@
                == "invalid animation id: "@ + value@,
        },
{
    match AnimationId::parse(value) {
        Ok(id) => Ok(id),
        Err(message) => Err(ApiError::bad_request(message)),
    }
}

/// Reads the identifier of a preset from a request.
pub fn parse_preset_id(value: &str) -> (r: Result<PresetId, ApiError>)
    ensures
        match r {
            Ok(id) => is_slug(value@) && id@ == value@,
            Err(error) => !is_slug(value@) && error.status == 400 && error.message@
                == "invalid preset id: "@ + value@,
        },
{
    match PresetId::parse(value) {
        Ok(id) => Ok(id),
        Err(message) => Err(ApiError::bad_request(message)),
    }
}

/// Finds a preset that a request names.
pub fn require_preset(registry: &Registry, id: &PresetId) -> (r: Result<usize, ApiError>)
    ensures
        ({
            let presets = registry.preset_list();
            let i = find_preset(presets, id@);
            match r {
                Ok(place) => place == i && i < presets.len(),
                Err(error) => i == presets.len() && error.status == 404 && error.message@
                    == unknown_preset(id@),
            }
        }),
{
    match registry.preset_index(id) {
        Some(i) => Ok(i),
        None => {
            let mut text = owned("preset ");
            text.append(id.as_str());
            text.append(" was not found");
            Err(ApiError::not_found(text))
        },
    }
}

/// Starts an animation that a request names. An unknown one is not found; one that
/// cannot be played is a conflict.
pub fn play_animation(
    registry: &mut Registry,
    id: &AnimationId,
    options: &PlaybackOptions,
    binding: &TargetBinding,
    started_ms: u64,
) -> (r: Result<Started, ApiError>)
    requires
        old(registry).wf(),
        old(registry).room(),
    ensures
        final(registry).wf(),
        ({
            let animations = old(registry).animation_list();
            match r {
                Ok(started) => {
                    &&& began(
                        *old(registry),
                        *final(registry),
                        id@,
                        *options,
                        *binding,
                        started_ms,
                        started,
                    )
                    &&& final(registry).known() == old(registry).known()
                    &&& final(registry).label_book() == old(registry).label_book()
                    &&& final(registry).preset_list() == old(registry).preset_list()
                    &&& final(registry).animation_list() == animations
                },
                Err(error) => {
                    &&& *final(registry) == *old(registry)
                    &&& if find_animation(animations, id@) == animations.len() {
                        error.status == 404 && error.message@ == unknown_animation(id@)
                    } else {
                        error.status == 409 && refusal(*old(registry), id@, *options, *binding)
                            == Some(error.message@)
                    }
                },
            }
        }),
{
    if registry.animation_index(id).is_none() {
        let mut text = owned("animation ");
        text.append(id.as_str());
        text.append(" was not found");
        return Err(ApiError::not_found(text));
    }
    match registry.play(id, options, binding, started_ms) {
        Ok(started) => Ok(started),
        Err(message) => Err(ApiError::conflict(message)),
    }
}

/// Renames a preset that a request names, and returns it. An unknown one is not
/// found; an empty name is a conflict.
pub fn rename_preset(registry: &mut Registry, id: &PresetId, name: &str) -> (r: Result<
    Preset,
    ApiError,
>)
    ensures
        old(registry).wf() ==> final(registry).wf(),
        final(registry).same_world(*old(registry)),
        final(registry).animation_list() == old(registry).animation_list(),
        final(registry).next_id() == old(registry).next_id(),
        ({
            let presets = old(registry).preset_list();
            let i = find_preset(presets, id@);
            match r {
                Ok(preset) => {
                    &&& i < presets.len()
                    &&& trimmed(name@).len() > 0
                    &&& preset@ == (PresetModel { name: trimmed(name@), ..presets[i]@ })
                    &&& preset_models(final(registry).preset_list()) == preset_models(
                        presets,
                    ).update(i, preset@)
                },
                Err(error) => {
                    &&& final(registry).preset_list() == presets
                    &&& if i == presets.len() {
                        error.status == 404 && error.message@ == unknown_preset(id@)
                    } else {
                        &&& trimmed(name@).len() == 0
                        &&& error.status == 409
                        &&& error.message@ == "preset name may not be empty"@
                    }
                },
            }
        }),
{
    let place = match require_preset(registry, id) {
        Ok(place) => place,
        Err(error) => {
            return Err(error);
        },
    };
    let ghost before = registry.preset_list();
    match registry.rename_preset(id, name) {
        Ok(_) => {
            assert(preset_models(registry.preset_list()).len() == registry.presets@.len());
            assert(preset_models(before).len() == before.len());
            let preset = registry.presets[place].clone();
            assert(preset_models(registry.preset_list())[place as int] == preset@);
            Ok(preset)
        },
        Err(message) => Err(ApiError::conflict(message)),
    }
}

/// Overwrites the entries of a preset that a request names with a fresh capture,
/// of all lights unless the request selects some.
pub fn recapture_preset(
    registry: &mut Registry,
    id: &PresetId,
    selector: &Option<Selector>,
) -> (r: Result<Preset, ApiError>)
    ensures
        old(registry).wf() ==> final(registry).wf(),
        final(registry).same_world(*old(registry)),
        final(registry).animation_list() == old(registry).animation_list(),
        final(registry).next_id() == old(registry).next_id(),
        ({
            let presets = old(registry).preset_list();
            let i = find_preset(presets, id@);
            let chosen = match *selector {
                Some(selector) => selector,
                None => Selector::All,
            };
            let entries = capture_of(old(registry).known(), chosen);
            match r {
                Ok(preset) => {
                    &&& i < presets.len()
                    &&& entries.len() > 0
                    &&& preset@ == (PresetModel { entries, ..presets[i]@ })
                    &&& preset_models(final(registry).preset_list()) == preset_models(
                        presets,
                    ).update(i, preset@)
                },
                Err(error) => {
                    &&& final(registry).preset_list() == presets
                    &&& if i == presets.len() {
                        error.status == 404 && error.message@ == unknown_preset(id@)
                    } else {
                        &&& entries.len() == 0
                        &&& error.status == 503
                        &&& error.message@ == "no connected light modes could be captured"@
                    }
                },
            }
        }),
{
    if let Err(error) = require_preset(registry, id) {
        return Err(error);
    }
    let result = match selector {
        Some(selector) => registry.recapture_preset(id, selector),
        None => registry.recapture_preset(id, &Selector::All),
    };
    match result {
        Ok(preset) => Ok(preset),
        Err(message) => Err(ApiError::registry(message)),
    }
}

} // verus!
