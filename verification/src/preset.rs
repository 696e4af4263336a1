//! Presets: named collections of light modes.
use vstd::prelude::*;
use vstd::string::StringExecFns;
use crate::id::LightId;
use crate::mode::Mode;
use crate::slug::{is_slug, is_slug_char, parse_slug};
use crate::text::{ascii_lower, chars_of, lower_text, owned};

verus! {

/// A validated, URL-safe preset identifier.
#[derive(Debug, PartialEq, Eq, Hash, PartialOrd, Ord)]
pub struct PresetId(pub(crate) String);

impl View for PresetId {
    type V = Seq<char>;

    open(crate) spec fn view(&self) -> Seq<char> {
        self.0@
    }
}

impl Clone for PresetId {
    fn clone(&self) -> (r: Self)
        ensures
            r == *self,
    {
        proof {
            use_type_invariant(self);
        }
        PresetId(self.0.clone())
    }
}

impl PresetId {
    /// An identifier is a slug.
    #[verifier::type_invariant]
    pub open(crate) spec fn wf(self) -> bool {
        is_slug(self@)
    }

    /// Parses a nonempty lowercase alphanumeric-and-dash slug.
    pub fn parse(value: &str) -> (r: Result<Self, String>)
        ensures
            match r {
                Ok(id) => is_slug(value@) && id@ == value@,
                Err(message) => !is_slug(value@) && message@ == "invalid preset id: "@ + value@,
            },
    {
        if parse_slug(value) {
            Ok(PresetId(owned(value)))
        } else {
            let mut message = owned("invalid preset id: ");
            message.append(value);
            Err(message)
        }
    }

    /// Returns the slug text.
    pub fn as_str(&self) -> (r: &str)
        ensures
            r@ == self@,
            is_slug(r@),
    {
        proof {
            use_type_invariant(self);
        }
        self.0.as_str()
    }

    /// Tells whether two identifiers are the same.
    pub fn same(&self, other: &PresetId) -> (r: bool)
        ensures
            r == (self@ == other@),
    {
        self.0 == other.0
    }
}

/// A preset target applying globally or to one stable light identifier.
#[derive(Clone, Debug, PartialEq, Eq)]
pub enum PresetTarget {
    Everything,
    Light { id: LightId },
}

/// One target and mode captured in a preset.
#[derive(Debug, PartialEq, Eq)]
pub struct PresetEntry {
    pub target: PresetTarget,
    pub mode: Mode,
}

impl Clone for PresetEntry {
    fn clone(&self) -> (r: Self)
        ensures
            r == *self,
    {
        PresetEntry {
            target: match &self.target {
                PresetTarget::Everything => PresetTarget::Everything,
                PresetTarget::Light { id } => PresetTarget::Light { id: id.clone() },
            },
            mode: self.mode,
        }
    }
}

/// A named, ordered collection of light modes.
#[derive(Debug, PartialEq, Eq)]
pub struct Preset {
    pub id: PresetId,
    pub name: String,
    pub entries: Vec<PresetEntry>,
}

/// What a preset holds.
#[verifier::ext_equal]
pub struct PresetModel {
    pub id: Seq<char>,
    pub name: Seq<char>,
    pub entries: Seq<PresetEntry>,
}

impl View for Preset {
    type V = PresetModel;

    open spec fn view(&self) -> PresetModel {
        PresetModel { id: self.id@, name: self.name@, entries: self.entries@ }
    }
}

/// Copies preset entries.
pub fn copy_entries(entries: &[PresetEntry]) -> (r: Vec<PresetEntry>)
    ensures
        r@ == entries@,
{
    let mut r: Vec<PresetEntry> = Vec::new();
    let mut i: usize = 0;
    while i < entries.len()
        invariant
            i <= entries@.len(),
            r@ == entries@.take(i as int),
        decreases entries.len() - i,
    {
        r.push(entries[i].clone());
        assert(entries@.take(i + 1) =~= entries@.take(i as int).push(entries@[i as int]));
        i += 1;
    }
    assert(entries@.take(i as int) =~= entries@);
    r
}

impl Clone for Preset {
    fn clone(&self) -> (r: Self)
        ensures
            r@ == self@,
    {
        Preset {
            id: self.id.clone(),
            name: self.name.clone(),
            entries: copy_entries(self.entries.as_slice()),
        }
    }
}

/// What presets hold.
pub open spec fn preset_models(presets: Seq<Preset>) -> Seq<PresetModel> {
    presets.map_values(|preset: Preset| preset@)
}

/// Copies presets.
pub fn copy_presets(presets: &[Preset]) -> (r: Vec<Preset>)
    ensures
        preset_models(r@) == preset_models(presets@),
{
    let mut r: Vec<Preset> = Vec::new();
    let mut i: usize = 0;
    while i < presets.len()
        invariant
            i <= presets@.len(),
            preset_models(r@) == preset_models(presets@.take(i as int)),
            r@.len() == i,
        decreases presets.len() - i,
    {
        let ghost before = r@;
        r.push(presets[i].clone());
        assert(preset_models(r@) =~= preset_models(before).push(presets@[i as int]@));
        assert(preset_models(presets@.take(i + 1)) =~= preset_models(
            presets@.take(i as int),
        ).push(presets@[i as int]@));
        i += 1;
    }
    assert(presets@.take(i as int) =~= presets@);
    r
}

/// An ASCII letter or digit.
pub open spec fn is_alphanumeric(c: char) -> bool {
    ('a' <= c <= 'z') || ('A' <= c <= 'Z') || ('0' <= c <= '9')
}

/// The runs of letters and digits of a name in lower case, with a dash between
/// every two of them.
pub open spec fn dashed(name: Seq<char>) -> Seq<char>
    decreases name.len(),
{
    if name.len() == 0 {
        Seq::empty()
    } else {
        let head = dashed(name.drop_last());
        let c = name.last();
        if !is_alphanumeric(c) {
            head
        } else if head.len() > 0 && !is_alphanumeric(name[name.len() - 2]) {
            head.push('-').push(ascii_lower(c))
        } else {
            head.push(ascii_lower(c))
        }
    }
}

/// The slug of a preset's name.
pub open spec fn slug_of_name(name: Seq<char>) -> Seq<char> {
    if dashed(name).len() == 0 {
        "preset"@
    } else {
        dashed(name)
    }
}

/// Makes a slug of a preset's name.
pub fn preset_slug(name: &str) -> (r: String)
    ensures
        r@ == slug_of_name(name@),
{
    let chars = chars_of(name);
    let mut slug = String::new();
    let mut empty = true;
    let mut separator = false;
    let mut i: usize = 0;
    assert(name@.take(0) =~= Seq::<char>::empty());
    while i < chars.len()
        invariant
            i <= chars@.len(),
            chars@ == name@,
            slug@ == dashed(name@.take(i as int)),
            empty == (slug@.len() == 0),
            separator == (i > 0 && !is_alphanumeric(name@[i - 1])),
        decreases chars.len() - i,
    {
        let c = chars[i];
        assert(name@.take(i + 1).drop_last() =~= name@.take(i as int));
        if ('a' <= c && c <= 'z') || ('A' <= c && c <= 'Z') || ('0' <= c && c <= '9') {
            if separator && !empty {
                slug.push('-');
            }
            slug.push(
                if 'A' <= c && c <= 'Z' {
                    (c as u8 + 32) as char
                } else {
                    c
                },
            );
            empty = false;
            separator = false;
        } else {
            separator = true;
        }
        i += 1;
    }
    assert(name@.take(i as int) =~= name@);
    if empty {
        owned("preset")
    } else {
        slug
    }
}

proof fn dashed_is_made_of_slug_chars(name: Seq<char>)
    ensures
        forall|i: int| 0 <= i < dashed(name).len() ==> is_slug_char(#[trigger] dashed(name)[i]),
        dashed(name).len() > 0 ==> dashed(name)[0] != '-' && dashed(name).last() != '-',
        dashed(name).len() == 0 <==> forall|i: int|
            0 <= i < name.len() ==> !is_alphanumeric(#[trigger] name[i]),
    decreases name.len(),
{
    if name.len() > 0 {
        let rest = name.drop_last();
        dashed_is_made_of_slug_chars(rest);
        assert forall|i: int| 0 <= i < rest.len() implies rest[i] == name[i] by {}
        if dashed(name).len() == 0 {
            assert forall|i: int| 0 <= i < name.len() implies !is_alphanumeric(
                #[trigger] name[i],
            ) by {
                if i < rest.len() {
                    assert(!is_alphanumeric(rest[i]));
                }
            }
        } else if is_alphanumeric(name.last()) {
            assert(is_alphanumeric(name[name.len() - 1]));
        } else {
            let i = choose|i: int| 0 <= i < rest.len() && is_alphanumeric(#[trigger] rest[i]);
            assert(is_alphanumeric(name[i]));
        }
    }
}

/// Every name has a slug that is a valid preset identifier, and that neither
/// begins nor ends with a dash.
pub proof fn slugs_are_valid_identifiers(name: Seq<char>)
    ensures
        is_slug(slug_of_name(name)),
        slug_of_name(name)[0] != '-',
        slug_of_name(name).last() != '-',
{
    reveal_strlit("preset");
    dashed_is_made_of_slug_chars(name);
}

/// Letters and digits alone.
pub open spec fn is_word(s: Seq<char>) -> bool {
    forall|i: int|
        0 <= i < s.len() ==> 'a' <= #[trigger] s[i] <= 'z' || 'A' <= s[i] <= 'Z' || '0' <= s[i]
            <= '9'
}

/// No letter and no digit.
pub open spec fn is_gap(s: Seq<char>) -> bool {
    forall|i: int|
        0 <= i < s.len() ==> !('a' <= #[trigger] s[i] <= 'z') && !('A' <= s[i] <= 'Z') && !('0'
            <= s[i] <= '9')
}

proof fn gaps_add_nothing(before: Seq<char>, gap: Seq<char>)
    requires
        is_gap(gap),
    ensures
        dashed(before + gap) == dashed(before),
    decreases gap.len(),
{
    let whole = before + gap;
    if gap.len() == 0 {
        assert(whole =~= before);
    } else {
        assert(whole.drop_last() =~= before + gap.drop_last());
        assert(whole.last() == gap[gap.len() - 1]);
        gaps_add_nothing(before, gap.drop_last());
    }
}

/// The slug of a name holds its words in lower case, with one dash between two words,
/// whatever stands between them, and nothing before the first or after the last.
pub proof fn slugs_are_words_with_dashes(before: Seq<char>, gap: Seq<char>, word: Seq<char>)
    requires
        is_gap(gap),
        is_word(word),
        word.len() > 0,
    ensures
        dashed(before + gap) == dashed(before),
        is_gap(before) ==> dashed(before + gap + word) == lower_text(word),
        gap.len() > 0 && !is_gap(before) ==> dashed(before + gap + word) == dashed(before).push('-')
            + lower_text(word),
    decreases word.len(),
{
    gaps_add_nothing(before, gap);
    dashed_is_made_of_slug_chars(before);
    let whole = before + gap + word;
    let head = word.drop_last();
    assert(whole.drop_last() =~= before + gap + head);
    assert(whole.last() == word[word.len() - 1]);
    assert(lower_text(word) =~= lower_text(head).push(ascii_lower(word.last())));
    if is_gap(before) {
        assert(dashed(before).len() == 0) by {
            assert forall|i: int| 0 <= i < before.len() implies !is_alphanumeric(
                #[trigger] before[i],
            ) by {}
        }
    } else {
        assert(dashed(before).len() > 0) by {
            let i = choose|i: int|
                0 <= i < before.len() && !(!('a' <= #[trigger] before[i] <= 'z') && !('A'
                    <= before[i] <= 'Z') && !('0' <= before[i] <= '9'));
            assert(is_alphanumeric(before[i]));
        }
    }
    if head.len() > 0 {
        slugs_are_words_with_dashes(before, gap, head);
        assert(whole[whole.len() - 2] == word[word.len() - 2]);
    } else {
        assert(before + gap + head =~= before + gap);
        assert(lower_text(head) =~= Seq::<char>::empty());
        if gap.len() > 0 {
            assert(whole[whole.len() - 2] == gap[gap.len() - 1]);
        }
    }
    if is_gap(before) {
        assert(dashed(whole) =~= lower_text(word));
    } else if gap.len() > 0 {
        assert(dashed(whole) =~= dashed(before).push('-') + lower_text(word));
    }
}

/// A name without letters and digits is called a preset, and no other name loses its own
/// slug.
pub proof fn nameless_presets_are_called_so(name: Seq<char>)
    ensures
        is_gap(name) ==> slug_of_name(name) == "preset"@,
        !is_gap(name) ==> slug_of_name(name) == dashed(name) && dashed(name).len() > 0,
{
    dashed_is_made_of_slug_chars(name);
    if !is_gap(name) {
        let i = choose|i: int|
            0 <= i < name.len() && !(!('a' <= #[trigger] name[i] <= 'z') && !('A' <= name[i]
                <= 'Z') && !('0' <= name[i] <= '9'));
        assert(is_alphanumeric(name[i]));
    } else {
        assert forall|i: int| 0 <= i < name.len() implies !is_alphanumeric(#[trigger] name[i]) by {}
    }
}

} // verus!
