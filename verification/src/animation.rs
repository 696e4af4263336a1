//! Animations: keyframes, playback controls and their validation.
use vstd::prelude::*;
use vstd::string::StringExecFns;
use crate::id::LightId;
use crate::mode::Mode;
use crate::selector::Selector;
use crate::slug::{is_slug, parse_slug};
use crate::text::{
    chars_of, decimal, decimal_reads_back, is_text, number, numbers_are_read_from_their_digits, owned,
    parse_number, push_decimal,
};

verus! {

/// A validated, URL-safe animation identifier.
#[derive(Debug, PartialEq, Eq, Hash, PartialOrd, Ord)]
pub struct AnimationId(pub(crate) String);

impl View for AnimationId {
    type V = Seq<char>;

    open(crate) spec fn view(&self) -> Seq<char> {
        self.0@
    }
}

impl Clone for AnimationId {
    fn clone(&self) -> (r: Self)
        ensures
            r == *self,
    {
        proof {
            use_type_invariant(self);
        }
        AnimationId(self.0.clone())
    }
}

impl AnimationId {
    /// An identifier is a slug.
    #[verifier::type_invariant]
    pub open(crate) spec fn wf(self) -> bool {
        is_slug(self@)
    }

    /// Parses a nonempty lowercase alphanumeric-and-dash slug.
    pub fn parse(value: &str) -> (r: Result<Self, String>)
        ensures
            match r {
                Ok(id) => is_slug(value@) && id@ == value@,
                Err(message) => !is_slug(value@) && message@ == "invalid animation id: "@ + value@,
            },
    {
        if parse_slug(value) {
            Ok(AnimationId(owned(value)))
        } else {
            let mut message = owned("invalid animation id: ");
            message.append(value);
            Err(message)
        }
    }

    /// Returns the slug text.
    pub fn as_str(&self) -> (r: &str)
        ensures
            r@ == self@,
            is_slug(r@),
    {
        proof {
            use_type_invariant(self);
        }
        self.0.as_str()
    }

    /// Tells whether two identifiers are the same.
    pub fn same(&self, other: &AnimationId) -> (r: bool)
        ensures
            r == (self@ == other@),
    {
        self.0 == other.0
    }
}

/// The number of a slot, counted from one.
#[derive(Clone, Copy, PartialEq, Eq, Structural, Debug, PartialOrd, Ord, Hash)]
pub struct SlotNumber(pub(crate) u8);

impl View for SlotNumber {
    type V = int;

    open(crate) spec fn view(&self) -> int {
        self.0 as int
    }
}

impl SlotNumber {
    /// A slot number is not zero.
    #[verifier::type_invariant]
    pub open(crate) spec fn wf(self) -> bool {
        1 <= self@ <= 255
    }

    /// The slot of a number in range.
    pub open(crate) spec fn of(n: int) -> SlotNumber {
        SlotNumber(n as u8)
    }

    /// Takes a number other than zero as a slot number.
    pub fn new(value: u8) -> (r: Option<Self>)
        ensures
            match r {
                Some(slot) => value != 0 && slot == Self::of(value as int) && slot@ == value,
                None => value == 0,
            },
    {
        if value == 0 {
            None
        } else {
            Some(SlotNumber(value))
        }
    }

    /// Returns the number of the slot.
    pub fn get(self) -> (value: u8)
        ensures
            value == self@,
            value >= 1,
    {
        proof {
            use_type_invariant(&self);
        }
        self.0
    }
}

/// One animation target, either the resolved all selector or a numbered slot.
#[derive(Clone, Copy, PartialEq, Eq, Structural, Debug, PartialOrd, Ord, Hash)]
pub enum AnimTarget {
    All,
    Slot(SlotNumber),
}

impl AnimTarget {
    /// The place of a target in the order of targets: all lights come first, then
    /// the slots by number.
    pub open spec fn rank(self) -> int {
        match self {
            AnimTarget::All => 0,
            AnimTarget::Slot(slot) => slot@,
        }
    }

    /// A slot target has a valid number.
    pub open spec fn wf(self) -> bool {
        self matches AnimTarget::Slot(slot) ==> slot.wf()
    }

    /// Returns the place of a target in the order of targets.
    pub fn order(self) -> (r: u8)
        ensures
            r == self.rank(),
            self.wf(),
    {
        match self {
            AnimTarget::All => 0,
            AnimTarget::Slot(slot) => {
                proof {
                    use_type_invariant(&slot);
                }
                slot.get()
            },
        }
    }
}

/// The text that stands for a target where targets are keys.
pub open spec fn key_of(target: AnimTarget) -> Seq<char> {
    match target {
        AnimTarget::All => "*"@,
        AnimTarget::Slot(slot) => decimal(slot@ as nat),
    }
}

/// The target that a key stands for, if it does.
pub open(crate) spec fn target_of_key(key: Seq<char>) -> Option<AnimTarget> {
    if key == "*"@ {
        Some(AnimTarget::All)
    } else {
        match number(key, 10, 255) {
            Some(slot) => if slot == 0 {
                None
            } else {
                Some(AnimTarget::Slot(SlotNumber::of(slot)))
            },
            None => None,
        }
    }
}

impl AnimTarget {
    /// Returns the text that stands for the target where targets are keys.
    pub fn key(self) -> (r: String)
        ensures
            r@ == key_of(self),
    {
        match self {
            AnimTarget::All => owned("*"),
            AnimTarget::Slot(slot) => {
                let mut text = String::new();
                push_decimal(&mut text, slot.get() as u64);
                assert(text@ =~= decimal(slot@ as nat));
                text
            },
        }
    }

    /// Reads the text that stands for a target where targets are keys.
    pub fn from_key(key: &String) -> (r: Result<Self, String>)
        ensures
            match r {
                Ok(target) => target_of_key(key@) == Some(target),
                Err(message) => target_of_key(key@) is None && message@
                    == "invalid animation target: "@ + key@,
            },
    {
        if is_text(key, "*") {
            return Ok(AnimTarget::All);
        }
        let digits = chars_of(key.as_str());
        if let Some(slot) = parse_number(digits.as_slice(), 10, 255) {
            if slot != 0 {
                return Ok(AnimTarget::Slot(SlotNumber(slot as u8)));
            }
        }
        let mut message = owned("invalid animation target: ");
        message.append(key.as_str());
        Err(message)
    }
}

/// A target's key is read as the target.
pub proof fn keys_read_back(target: AnimTarget)
    requires
        target.wf(),
    ensures
        target_of_key(key_of(target)) == Some(target),
{
    reveal_strlit("*");
    match target {
        AnimTarget::All => {},
        AnimTarget::Slot(slot) => {
            let n = slot@ as nat;
            decimal_reads_back(n);
            let digits = decimal(n);
            assert('0' <= digits[0] <= '9');
            assert("*"@[0] == '*');
        },
    }
}

/// Targets with the same place are the same.
pub proof fn rank_identifies(a: AnimTarget, b: AnimTarget)
    requires
        a.wf(),
        b.wf(),
        a.rank() == b.rank(),
    ensures
        a == b,
{
}

/// The mode of the first entry for a target.
pub open spec fn lookup(entries: Seq<(AnimTarget, Mode)>, target: AnimTarget) -> Option<Mode>
    decreases entries.len(),
{
    if entries.len() == 0 {
        None
    } else if entries[0].0 == target {
        Some(entries[0].1)
    } else {
        lookup(entries.drop_first(), target)
    }
}

/// Entries in the order of their targets, each target at most once.
pub open spec fn ascending(entries: Seq<(AnimTarget, Mode)>) -> bool {
    &&& forall|i: int| 0 <= i < entries.len() ==> (#[trigger] entries[i]).0.wf()
    &&& forall|i: int, j: int|
        0 <= i < j < entries.len() ==> (#[trigger] entries[i]).0.rank() < (
        #[trigger] entries[j]).0.rank()
}

proof fn lookup_at(entries: Seq<(AnimTarget, Mode)>, i: int)
    requires
        ascending(entries),
        0 <= i < entries.len(),
    ensures
        lookup(entries, entries[i].0) == Some(entries[i].1),
    decreases entries.len(),
{
    if i > 0 {
        assert(entries[0].0.rank() < entries[i].0.rank());
        assert(entries.drop_first()[i - 1] == entries[i]);
        lookup_at(entries.drop_first(), i - 1);
    }
}

proof fn lookup_absent(entries: Seq<(AnimTarget, Mode)>, target: AnimTarget)
    requires
        forall|i: int| 0 <= i < entries.len() ==> (#[trigger] entries[i]).0 != target,
    ensures
        lookup(entries, target) is None,
    decreases entries.len(),
{
    if entries.len() > 0 {
        let rest = entries.drop_first();
        assert forall|i: int| 0 <= i < rest.len() implies (#[trigger] rest[i]).0 != target by {
            assert(rest[i] == entries[i + 1]);
        }
        lookup_absent(rest, target);
    }
}

/// The modes of the targets that a keyframe names, ordered by target.
#[derive(Debug, PartialEq, Eq)]
pub struct TargetModes {
    pub(crate) entries: Vec<(AnimTarget, Mode)>,
}

impl View for TargetModes {
    type V = Seq<(AnimTarget, Mode)>;

    open(crate) spec fn view(&self) -> Seq<(AnimTarget, Mode)> {
        self.entries@
    }
}

impl Clone for TargetModes {
    fn clone(&self) -> (r: Self)
        ensures
            r@ == self@,
    {
        proof {
            use_type_invariant(self);
        }
        let mut entries: Vec<(AnimTarget, Mode)> = Vec::new();
        let mut i: usize = 0;
        while i < self.entries.len()
            invariant
                i <= self.entries@.len(),
                entries@ == self.entries@.take(i as int),
            decreases self.entries.len() - i,
        {
            entries.push(self.entries[i]);
            assert(entries@ =~= self.entries@.take(i + 1));
            i += 1;
        }
        assert(entries@ =~= self.entries@);
        TargetModes { entries }
    }
}

impl TargetModes {
    /// The entries are in the order of their targets, each target at most once.
    #[verifier::type_invariant]
    pub open(crate) spec fn wf(self) -> bool {
        ascending(self@)
    }

    /// Names no target.
    pub fn new() -> (r: Self)
        ensures
            r@ == Seq::<(AnimTarget, Mode)>::empty(),
    {
        TargetModes { entries: Vec::new() }
    }

    /// Sets the mode of a target, in place of the mode it had.
    pub fn insert(self, target: AnimTarget, mode: Mode) -> (r: Self)
        ensures
            ascending(r@),
            forall|other: AnimTarget|
                #![trigger lookup(r@, other)]
                lookup(r@, other) == if other == target {
                    Some(mode)
                } else {
                    lookup(self@, other)
                },
    {
        proof {
            use_type_invariant(&self);
        }
        let ghost before = self@;
        let mut entries = self.entries;
        let place: u8 = target.order();
        let mut i: usize = 0;
        while i < entries.len() && entries[i].0.order() < place
            invariant
                i <= entries@.len(),
                entries@ == before,
                place == target.rank(),
                forall|j: int| 0 <= j < i ==> (#[trigger] before[j]).0.rank() < place,
            decreases entries.len() - i,
        {
            i += 1;
        }
        if i < entries.len() && entries[i].0.order() == place {
            proof {
                rank_identifies(before[i as int].0, target);
            }
            entries.set(i, (target, mode));
        } else {
            entries.insert(i, (target, mode));
        }
        proof {
            let after = entries@;
            assert(ascending(after));
            assert(after[i as int] == (target, mode));
            lookup_at(after, i as int);
            assert forall|other: AnimTarget| #![trigger lookup(after, other)] lookup(after, other)
                == if other == target {
                Some(mode)
            } else {
                lookup(before, other)
            } by {
                if other != target {
                    if exists|j: int| 0 <= j < before.len() && (#[trigger] before[j]).0 == other {
                        let j = choose|j: int|
                            0 <= j < before.len() && (#[trigger] before[j]).0 == other;
                        lookup_at(before, j);
                        if after.len() == before.len() {
                            assert(after[j] == before[j]);
                            lookup_at(after, j);
                        } else if j < i {
                            assert(after[j] == before[j]);
                            lookup_at(after, j);
                        } else {
                            assert(after[j + 1] == before[j]);
                            lookup_at(after, j + 1);
                        }
                    } else {
                        lookup_absent(before, other);
                        assert forall|j: int| 0 <= j < after.len() implies (
                        #[trigger] after[j]).0 != other by {
                            if after.len() == before.len() || j < i {
                                if j != i {
                                    assert(after[j] == before[j]);
                                }
                            } else if j > i {
                                assert(after[j] == before[j - 1]);
                            }
                        }
                        lookup_absent(after, other);
                    }
                }
            }
        }
        TargetModes { entries }
    }

    /// The mode of a target, if it is named.
    pub fn get(&self, target: AnimTarget) -> (r: Option<Mode>)
        ensures
            r == lookup(self@, target),
    {
        proof {
            use_type_invariant(self);
        }
        let mut i: usize = 0;
        while i < self.entries.len()
            invariant
                i <= self@.len(),
                ascending(self@),
                forall|j: int| 0 <= j < i ==> (#[trigger] self@[j]).0 != target,
            decreases self.entries.len() - i,
        {
            if self.entries[i].0 == target {
                proof {
                    lookup_at(self@, i as int);
                }
                return Some(self.entries[i].1);
            }
            i += 1;
        }
        proof {
            lookup_absent(self@, target);
        }
        None
    }

    /// The entries, ordered by target.
    pub fn as_slice(&self) -> (r: &[(AnimTarget, Mode)])
        ensures
            r@ == self@,
            ascending(r@),
    {
        proof {
            use_type_invariant(self);
        }
        self.entries.as_slice()
    }
}

/// A single animation keyframe.
#[derive(Clone, Debug, PartialEq, Eq)]
pub struct Keyframe {
    pub hold_ms: u32,
    pub fade_ms: u32,
    pub lights: TargetModes,
}

/// A complete animation definition.
#[derive(Clone, Debug, PartialEq, Eq)]
pub struct Animation {
    pub id: AnimationId,
    pub name: String,
    pub description: String,
    pub loop_default: bool,
    pub slot_count: u8,
    pub keyframes: Vec<Keyframe>,
}

/// An entry is for a slot.
pub open spec fn names_slot(entry: (AnimTarget, Mode)) -> bool {
    entry.0 is Slot
}

/// A keyframe names slots.
pub open spec fn has_slot(entries: Seq<(AnimTarget, Mode)>) -> bool {
    exists|i: int| 0 <= i < entries.len() && names_slot(#[trigger] entries[i])
}

/// A keyframe names all lights together.
pub open spec fn has_all(entries: Seq<(AnimTarget, Mode)>) -> bool {
    lookup(entries, AnimTarget::All) is Some
}

/// What is wrong with one keyframe, if anything.
pub open spec fn keyframe_fault(keyframe: Keyframe, index: int) -> Option<Seq<char>> {
    if keyframe.hold_ms > 600_000 {
        Some("keyframe "@ + decimal(index as nat) + " hold_ms exceeds 600000"@)
    } else if keyframe.fade_ms > 600_000 {
        Some("keyframe "@ + decimal(index as nat) + " fade_ms exceeds 600000"@)
    } else if has_all(keyframe.lights@) && has_slot(keyframe.lights@) {
        Some(
            "keyframe "@ + decimal(index as nat) + " may not mix the all target with slots"@,
        )
    } else {
        None
    }
}

/// What is wrong with the first faulty keyframe among the first `n`, if any is.
pub open spec fn first_fault(keyframes: Seq<Keyframe>, n: int) -> Option<Seq<char>>
    decreases n,
{
    if n <= 0 {
        None
    } else {
        match first_fault(keyframes, n - 1) {
            Some(fault) => Some(fault),
            None => keyframe_fault(keyframes[n - 1], n - 1),
        }
    }
}

/// The larger of two numbers.
pub open spec fn larger(a: int, b: int) -> int {
    if a < b {
        b
    } else {
        a
    }
}

/// The highest slot number among some entries; zero where no slot is named.
pub open spec fn highest_slot(entries: Seq<(AnimTarget, Mode)>) -> int
    decreases entries.len(),
{
    if entries.len() == 0 {
        0
    } else {
        larger(highest_slot(entries.drop_last()), entries.last().0.rank())
    }
}

/// The highest slot number among the first `n` keyframes.
pub open spec fn highest_slot_of(keyframes: Seq<Keyframe>, n: int) -> int
    decreases n,
{
    if n <= 0 {
        0
    } else {
        larger(highest_slot_of(keyframes, n - 1), highest_slot(keyframes[n - 1].lights@))
    }
}

/// The invariants of an animation that are broken, by the first message about one.
pub open spec fn animation_fault(animation: Animation) -> Option<Seq<char>> {
    let keyframes = animation.keyframes@;
    let n = keyframes.len() as int;
    if n == 0 {
        Some("animation must contain at least one keyframe"@)
    } else if first_fault(keyframes, n) is Some {
        first_fault(keyframes, n)
    } else if animation.slot_count != highest_slot_of(keyframes, n) {
        Some(
            "slot_count "@ + decimal(animation.slot_count as nat)
                + " does not match highest referenced slot "@ + decimal(
                highest_slot_of(keyframes, n) as nat,
            ),
        )
    } else {
        None
    }
}

proof fn faults_persist(keyframes: Seq<Keyframe>, k: int, n: int)
    requires
        0 <= k <= n,
        first_fault(keyframes, k) is Some,
    ensures
        first_fault(keyframes, n) == first_fault(keyframes, k),
    decreases n - k,
{
    if k < n {
        faults_persist(keyframes, k, n - 1);
    }
}

fn keyframe_message(index: usize, fault: &str) -> (r: String)
    ensures
        r@ == "keyframe "@ + decimal(index as nat) + fault@,
{
    let mut message = owned("keyframe ");
    push_decimal(&mut message, index as u64);
    message.append(fault);
    message
}

impl Animation {
    /// Validates animation invariants that span multiple serialized fields.
    pub fn validate(&self) -> (r: Result<(), String>)
        ensures
            match r {
                Ok(_) => animation_fault(*self) is None,
                Err(message) => animation_fault(*self) == Some(message@),
            },
    {
        if self.keyframes.len() == 0 {
            return Err(owned("animation must contain at least one keyframe"));
        }
        let ghost keyframes = self.keyframes@;
        let mut highest: u8 = 0;
        let mut index: usize = 0;
        while index < self.keyframes.len()
            invariant
                index <= keyframes.len(),
                keyframes == self.keyframes@,
                keyframes.len() > 0,
                first_fault(keyframes, index as int) is None,
                highest == highest_slot_of(keyframes, index as int),
            decreases self.keyframes.len() - index,
        {
            let keyframe = &self.keyframes[index];
            let ghost fault = keyframe_fault(*keyframe, index as int);
            proof {
                if fault is Some {
                    faults_persist(keyframes, index + 1, keyframes.len() as int);
                }
            }
            if keyframe.hold_ms > 600_000 {
                return Err(keyframe_message(index, " hold_ms exceeds 600000"));
            }
            if keyframe.fade_ms > 600_000 {
                return Err(keyframe_message(index, " fade_ms exceeds 600000"));
            }
            let entries = keyframe.lights.as_slice();
            let all = keyframe.lights.get(AnimTarget::All).is_some();
            let mut slot = false;
            let mut i: usize = 0;
            let ghost first = highest;
            while i < entries.len()
                invariant
                    i <= entries@.len(),
                    ascending(entries@),
                    slot == exists|j: int| 0 <= j < i && names_slot(#[trigger] entries@[j]),
                    highest == larger(first as int, highest_slot(entries@.take(i as int))),
                decreases entries.len() - i,
            {
                let place: u8 = entries[i].0.order();
                proof {
                    assert(entries@.take(i + 1).drop_last() =~= entries@.take(i as int));
                    assert(names_slot(entries@[i as int]) <==> place > 0);
                }
                if place > 0 {
                    slot = true;
                }
                if place > highest {
                    highest = place;
                }
                i += 1;
            }
            assert(entries@.take(i as int) =~= entries@);
            if all && slot {
                return Err(keyframe_message(index, " may not mix the all target with slots"));
            }
            index += 1;
        }
        if self.slot_count != highest {
            let mut message = owned("slot_count ");
            push_decimal(&mut message, self.slot_count as u64);
            message.append(" does not match highest referenced slot ");
            push_decimal(&mut message, highest as u64);
            return Err(message);
        }
        Ok(())
    }

    /// The compact list representation of this animation.
    pub open spec fn spec_summary(self) -> AnimationSummary {
        AnimationSummary {
            id: self.id,
            name: self.name,
            description: self.description,
            keyframes: self.keyframes.len() as u32,
            loop_default: self.loop_default,
            slot_count: self.slot_count,
        }
    }

    /// Returns the compact list representation of this animation.
    pub fn summary(&self) -> (r: AnimationSummary)
        ensures
            r == self.spec_summary(),
    {
        AnimationSummary {
            id: self.id.clone(),
            name: self.name.clone(),
            description: self.description.clone(),
            keyframes: self.keyframes.len() as u32,
            loop_default: self.loop_default,
            slot_count: self.slot_count,
        }
    }
}

/// Compact metadata returned when listing animations.
#[derive(Debug, PartialEq, Eq)]
pub struct AnimationSummary {
    pub id: AnimationId,
    pub name: String,
    pub description: String,
    pub keyframes: u32,
    pub loop_default: bool,
    pub slot_count: u8,
}

impl Clone for AnimationSummary {
    fn clone(&self) -> (r: Self)
        ensures
            r == *self,
    {
        AnimationSummary {
            id: self.id.clone(),
            name: self.name.clone(),
            description: self.description.clone(),
            keyframes: self.keyframes,
            loop_default: self.loop_default,
            slot_count: self.slot_count,
        }
    }
}

/// A single-precision number, by its IEEE 754 bits.
#[derive(Clone, Copy, PartialEq, Eq, Structural, Debug)]
pub struct Single {
    pub bits: u32,
}

/// The bits of the numbers 0.1, 1.0 and 10.0, and those of a negative zero.
pub const TENTH_BITS: u32 = 0x3dcc_cccd;

pub const ONE_BITS: u32 = 0x3f80_0000;

pub const TEN_BITS: u32 = 0x4120_0000;

pub const NEGATIVE_ZERO_BITS: u32 = 0x8000_0000;

impl Single {
    /// The number is finite and between 0.1 and 10.0. Positive numbers are
    /// ordered as their bits are.
    pub open spec fn is_speed(self) -> bool {
        TENTH_BITS <= self.bits <= TEN_BITS
    }

    /// The number is finite and between 0.0 and 1.0.
    pub open spec fn is_fraction(self) -> bool {
        self.bits <= ONE_BITS || self.bits == NEGATIVE_ZERO_BITS
    }
}

/// Runtime controls for animation playback.
#[derive(Clone, Copy, PartialEq, Eq, Structural, Debug)]
pub struct PlaybackOptions {
    pub speed: Single,
    pub fps: u8,
    pub bri_scale: Single,
    pub loop_override: Option<bool>,
    pub max_loops: u32,
    pub revert_on_finish: bool,
}

impl PlaybackOptions {
    /// Every bounded control is within its bounds.
    pub open spec fn wf(self) -> bool {
        &&& self.speed.is_speed()
        &&& 1 <= self.fps <= 30
        &&& self.bri_scale.is_fraction()
    }

    /// The words about the first control that is out of its bounds.
    pub open spec fn fault(self) -> Seq<char> {
        if !self.speed.is_speed() {
            "speed must be between 0.1 and 10.0"@
        } else if !(1 <= self.fps <= 30) {
            "fps must be between 1 and 30"@
        } else {
            "bri_scale must be between 0.0 and 1.0"@
        }
    }

    /// Validates all bounded playback controls.
    pub fn validate(&self) -> (r: Result<(), String>)
        ensures
            match r {
                Ok(_) => self.wf(),
                Err(message) => !self.wf() && message@ == self.fault(),
            },
    {
        if self.speed.bits < TENTH_BITS || self.speed.bits > TEN_BITS {
            return Err(owned("speed must be between 0.1 and 10.0"));
        }
        if self.fps < 1 || self.fps > 30 {
            return Err(owned("fps must be between 1 and 30"));
        }
        if self.bri_scale.bits > ONE_BITS && self.bri_scale.bits != NEGATIVE_ZERO_BITS {
            return Err(owned("bri_scale must be between 0.0 and 1.0"));
        }
        Ok(())
    }
}

impl Default for PlaybackOptions {
    fn default() -> (r: Self)
        ensures
            r == (PlaybackOptions {
                speed: Single { bits: ONE_BITS },
                fps: 5,
                bri_scale: Single { bits: ONE_BITS },
                loop_override: None,
                max_loops: 0,
                revert_on_finish: true,
            }),
            r.wf(),
    {
        PlaybackOptions {
            speed: default_speed(),
            fps: default_fps(),
            bri_scale: default_bri_scale(),
            loop_override: None,
            max_loops: 0,
            revert_on_finish: default_true(),
        }
    }
}

/// The speed at which an animation plays as it was written.
pub fn default_speed() -> (r: Single)
    ensures
        r.bits == ONE_BITS,
{
    Single { bits: ONE_BITS }
}

/// The number of frames in a second of a fade.
pub fn default_fps() -> (r: u8)
    ensures
        r == 5,
{
    5
}

/// The brightness scale that leaves brightness as it is.
pub fn default_bri_scale() -> (r: Single)
    ensures
        r.bits == ONE_BITS,
{
    Single { bits: ONE_BITS }
}

/// The default of a switch that is on.
pub fn default_true() -> (r: bool)
    ensures
        r,
{
    true
}

/// Resolves animation targets to the current light set at play time.
#[derive(Clone, Debug, PartialEq, Eq)]
pub struct TargetBinding {
    pub all: Selector,
    pub slots: Vec<LightId>,
}

impl Default for TargetBinding {
    fn default() -> (r: Self)
        ensures
            r.all == Selector::All,
            r.slots@.len() == 0,
    {
        TargetBinding { all: Selector::All, slots: Vec::new() }
    }
}

/// The client-visible state of the current playback.
#[derive(Debug, PartialEq, Eq)]
pub struct PlaybackStatus {
    pub animation: AnimationId,
    pub name: String,
    pub started_ms: u64,
    pub looping: bool,
}

impl Clone for PlaybackStatus {
    fn clone(&self) -> (r: Self)
        ensures
            r == *self,
    {
        PlaybackStatus {
            animation: self.animation.clone(),
            name: self.name.clone(),
            started_ms: self.started_ms,
            looping: self.looping,
        }
    }
}

/// A keyframe sets the slot of a given number.
pub open spec fn sets_slot(keyframe: Keyframe, number: int) -> bool {
    exists|i: int|
        0 <= i < keyframe.lights@.len() && ((#[trigger] keyframe.lights@[i]).0 matches AnimTarget::Slot(
            slot,
        ) && slot@ == number)
}

/// A keyframe sets all lights at once.
pub open spec fn sets_everything(keyframe: Keyframe) -> bool {
    exists|i: int|
        0 <= i < keyframe.lights@.len() && (#[trigger] keyframe.lights@[i]).0 == AnimTarget::All
}

/// A keyframe is short enough, and sets all lights at once or slots, not both.
pub open spec fn is_sound_keyframe(keyframe: Keyframe) -> bool {
    &&& keyframe.hold_ms <= 600_000
    &&& keyframe.fade_ms <= 600_000
    &&& forall|number: int| #[trigger] sets_slot(keyframe, number) ==> !sets_everything(keyframe)
}

/// Some keyframe sets the slot of a given number.
pub open spec fn any_sets_slot(keyframes: Seq<Keyframe>, number: int) -> bool {
    exists|k: int| 0 <= k < keyframes.len() && sets_slot(#[trigger] keyframes[k], number)
}

proof fn soundness_is_faultless(keyframe: Keyframe, index: int)
    requires
        keyframe.lights.wf(),
    ensures
        is_sound_keyframe(keyframe) <==> keyframe_fault(keyframe, index) is None,
        has_all(keyframe.lights@) <==> sets_everything(keyframe),
        has_slot(keyframe.lights@) <==> exists|number: int| #[trigger] sets_slot(keyframe, number),
{
    let entries = keyframe.lights@;
    if sets_everything(keyframe) {
        let i = choose|i: int| 0 <= i < entries.len() && (#[trigger] entries[i]).0 == AnimTarget::All;
        lookup_at(entries, i);
    } else {
        lookup_absent(entries, AnimTarget::All);
    }
    if has_slot(entries) {
        let i = choose|i: int| 0 <= i < entries.len() && names_slot(#[trigger] entries[i]);
        assert(entries[i].0 is Slot);
        assert(sets_slot(keyframe, entries[i].0->Slot_0@));
    }
    if exists|number: int| #[trigger] sets_slot(keyframe, number) {
        let number = choose|number: int| #[trigger] sets_slot(keyframe, number);
        let i = choose|i: int|
            0 <= i < entries.len() && ((#[trigger] entries[i]).0 matches AnimTarget::Slot(slot)
                && slot@ == number);
        assert(names_slot(entries[i]));
    }
}

proof fn faultless_among(keyframes: Seq<Keyframe>, n: int)
    requires
        0 <= n <= keyframes.len(),
        forall|k: int| 0 <= k < keyframes.len() ==> (#[trigger] keyframes[k]).lights.wf(),
    ensures
        first_fault(keyframes, n) is None <==> forall|k: int|
            0 <= k < n ==> is_sound_keyframe(#[trigger] keyframes[k]),
    decreases n,
{
    if n > 0 {
        faultless_among(keyframes, n - 1);
        soundness_is_faultless(keyframes[n - 1], n - 1);
    }
}

proof fn highest_of_entries(entries: Seq<(AnimTarget, Mode)>)
    requires
        forall|i: int| 0 <= i < entries.len() ==> (#[trigger] entries[i]).0.wf(),
    ensures
        highest_slot(entries) >= 0,
        forall|i: int|
            0 <= i < entries.len() ==> ((#[trigger] entries[i]).0 matches AnimTarget::Slot(slot)
                ==> slot@ <= highest_slot(entries)),
        highest_slot(entries) > 0 ==> exists|i: int|
            0 <= i < entries.len() && ((#[trigger] entries[i]).0 matches AnimTarget::Slot(slot)
                && slot@ == highest_slot(entries)),
    decreases entries.len(),
{
    if entries.len() > 0 {
        let rest = entries.drop_last();
        highest_of_entries(rest);
        let h = highest_slot(entries);
        assert forall|i: int| 0 <= i < entries.len() implies ((
        #[trigger] entries[i]).0 matches AnimTarget::Slot(slot) ==> slot@ <= h) by {
            if i < rest.len() {
                assert(rest[i] == entries[i]);
            }
        }
        if h > 0 {
            if h == highest_slot(rest) {
                let i = choose|i: int|
                    0 <= i < rest.len() && ((#[trigger] rest[i]).0 matches AnimTarget::Slot(slot)
                        && slot@ == h);
                assert(entries[i].0 is Slot && entries[i].0->Slot_0@ == h);
            } else {
                let i = entries.len() - 1;
                assert(entries[i].0 is Slot && entries[i].0->Slot_0@ == h);
            }
        }
    }
}

/// The highest slot that keyframes set bounds every slot that they set, and is one of them.
pub proof fn highest_of_keyframes(keyframes: Seq<Keyframe>, n: int)
    requires
        0 <= n <= keyframes.len(),
        forall|k: int| 0 <= k < keyframes.len() ==> (#[trigger] keyframes[k]).lights.wf(),
    ensures
        highest_slot_of(keyframes, n) >= 0,
        forall|k: int, number: int|
            0 <= k < n && #[trigger] sets_slot(keyframes[k], number) ==> number <= highest_slot_of(
                keyframes,
                n,
            ),
        highest_slot_of(keyframes, n) > 0 ==> exists|k: int|
            0 <= k < n && sets_slot(#[trigger] keyframes[k], highest_slot_of(keyframes, n)),
    decreases n,
{
    if n > 0 {
        highest_of_keyframes(keyframes, n - 1);
        highest_of_entries(keyframes[n - 1].lights@);
        let h = highest_slot_of(keyframes, n);
        if h > 0 {
            if h == highest_slot_of(keyframes, n - 1) {
                let k = choose|k: int| 0 <= k < n - 1 && sets_slot(#[trigger] keyframes[k], h);
                assert(sets_slot(keyframes[k], h));
            } else {
                assert(sets_slot(keyframes[n - 1], h));
            }
        }
    }
}

/// An animation is accepted if and only if it has keyframes, each of them is sound, and it
/// has as many slots as the highest slot that a keyframe sets.
pub proof fn sound_animations_are_accepted(animation: Animation)
    requires
        forall|k: int|
            0 <= k < animation.keyframes@.len() ==> (
            #[trigger] animation.keyframes@[k]).lights.wf(),
    ensures
        animation_fault(animation) is None <==> ({
            &&& animation.keyframes@.len() > 0
            &&& forall|k: int|
                0 <= k < animation.keyframes@.len() ==> is_sound_keyframe(
                    #[trigger] animation.keyframes@[k],
                )
            &&& forall|number: int| #[trigger]
                any_sets_slot(animation.keyframes@, number) ==> number <= animation.slot_count
            &&& animation.slot_count > 0 ==> any_sets_slot(
                animation.keyframes@,
                animation.slot_count as int,
            )
        }),
{
    let keyframes = animation.keyframes@;
    let n = keyframes.len() as int;
    faultless_among(keyframes, n);
    highest_of_keyframes(keyframes, n);
    let h = highest_slot_of(keyframes, n);
    if h > 0 {
        let k = choose|k: int| 0 <= k < n && sets_slot(#[trigger] keyframes[k], h);
        assert(any_sets_slot(keyframes, h));
    }
    assert forall|number: int| #[trigger] any_sets_slot(keyframes, number) implies number <= h by {
        let k = choose|k: int| 0 <= k < n && sets_slot(#[trigger] keyframes[k], number);
        assert(sets_slot(keyframes[k], number));
    }
}

proof fn first_fault_at(keyframes: Seq<Keyframe>, k: int, n: int)
    requires
        0 <= k < n <= keyframes.len(),
        first_fault(keyframes, k) is None,
        keyframe_fault(keyframes[k], k) is Some,
    ensures
        first_fault(keyframes, n) == keyframe_fault(keyframes[k], k),
    decreases n,
{
    if k < n - 1 {
        first_fault_at(keyframes, k, n - 1);
    }
}

/// Of a refused animation the first keyframe that is not sound is told, and of that one
/// first its hold, then its fade, then its targets.
pub proof fn the_first_unsound_keyframe_is_told(animation: Animation, k: int)
    requires
        0 <= k < animation.keyframes@.len(),
        forall|j: int|
            0 <= j < animation.keyframes@.len() ==> (
            #[trigger] animation.keyframes@[j]).lights.wf(),
        forall|j: int| 0 <= j < k ==> is_sound_keyframe(#[trigger] animation.keyframes@[j]),
        !is_sound_keyframe(animation.keyframes@[k]),
    ensures
        animation.keyframes@[k].hold_ms > 600_000 ==> animation_fault(animation) == Some(
            "keyframe "@ + decimal(k as nat) + " hold_ms exceeds 600000"@,
        ),
        animation.keyframes@[k].hold_ms <= 600_000 && animation.keyframes@[k].fade_ms > 600_000
            ==> animation_fault(animation) == Some(
            "keyframe "@ + decimal(k as nat) + " fade_ms exceeds 600000"@,
        ),
        animation.keyframes@[k].hold_ms <= 600_000 && animation.keyframes@[k].fade_ms <= 600_000
            ==> animation_fault(animation) == Some(
            "keyframe "@ + decimal(k as nat) + " may not mix the all target with slots"@,
        ),
{
    let keyframes = animation.keyframes@;
    let n = keyframes.len() as int;
    faultless_among(keyframes, k);
    soundness_is_faultless(keyframes[k], k);
    first_fault_at(keyframes, k, n);
}

/// A summary tells of its animation what it is called, how long it is in keyframes and
/// slots, and whether it loops.
pub proof fn summaries_tell_of_their_animation(animation: Animation)
    requires
        animation.keyframes@.len() <= u32::MAX,
    ensures
        ({
            let summary = animation.spec_summary();
            &&& summary.id@ == animation.id@
            &&& summary.name@ == animation.name@
            &&& summary.description@ == animation.description@
            &&& summary.keyframes == animation.keyframes@.len()
            &&& summary.loop_default == animation.loop_default
            &&& summary.slot_count == animation.slot_count
        }),
{
}

/// A target is written as a star or as the number of a slot, and read from them: numbers up
/// to 255 but not zero are slots, and nothing else is a target.
pub proof fn keys_name_their_targets(n: nat, key: Seq<char>)
    ensures
        target_of_key("*"@) == Some(AnimTarget::All),
        1 <= n <= 255 ==> (target_of_key(decimal(n)) matches Some(AnimTarget::Slot(slot)) && slot@
            == n),
        !(1 <= n <= 255) ==> target_of_key(decimal(n)) is None,
        target_of_key(key) == Some(AnimTarget::All) ==> key == "*"@,
        target_of_key(key) is Some && key != "*"@ ==> key.len() > 0 && (forall|i: int|
            0 <= i < key.len() ==> '0' <= #[trigger] key[i] <= '9' || (i == 0 && key[0] == '+')),
{
    reveal_strlit("*");
    numbers_are_read_from_their_digits(n, key, 255);
    decimal_reads_back(n);
    assert(decimal(n)[0] != '*');
    assert(decimal(n) != "*"@);
}

/// Options are refused for the first of their faults: the speed, the frames in a second,
/// then the brightness.
pub proof fn options_are_refused_for_their_first_fault(options: PlaybackOptions)
    ensures
        options.wf() <==> options.speed.is_speed() && 1 <= options.fps <= 30
            && options.bri_scale.is_fraction(),
        !options.speed.is_speed() ==> options.fault() == "speed must be between 0.1 and 10.0"@,
        options.speed.is_speed() && (options.fps == 0 || options.fps > 30) ==> options.fault()
            == "fps must be between 1 and 30"@,
        options.speed.is_speed() && 1 <= options.fps <= 30 && !options.bri_scale.is_fraction()
            ==> options.fault() == "bri_scale must be between 0.0 and 1.0"@,
{
}

} // verus!
