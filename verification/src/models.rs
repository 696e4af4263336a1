//! The database of light models and their capabilities.
use vstd::prelude::*;
use vstd::string::StringExecFns;
use vstd::utf8::encode_utf8;
use crate::caps::Capabilities;
use crate::mode::{Kelvin, RangeError};
use crate::text::{
    chars_of, contains, decimal, debug_text, occurs, owned, push_decimal, quoted, string_of,
    upper_case, uppercase,
};

verus! {

/// The defaults of a database, as they are written.
#[derive(Clone, Copy, Debug, PartialEq, Eq, Structural)]
pub struct RawCaps {
    pub cct_min: u16,
    pub cct_max: u16,
    pub rgb: bool,
    pub scenes: bool,
    pub cct_split_packets: bool,
    pub reports_status: bool,
}

/// One model of a database, as it is written.
#[derive(Debug)]
pub struct RawModel {
    pub patterns: Vec<String>,
    pub cct_min: Option<u16>,
    pub cct_max: Option<u16>,
    pub rgb: Option<bool>,
    pub scenes: Option<bool>,
    pub cct_split_packets: Option<bool>,
    pub reports_status: Option<bool>,
}

/// A database, as it is written.
#[derive(Debug)]
pub struct RawTable {
    pub defaults: RawCaps,
    pub models: Vec<RawModel>,
}

/// The names of a model and its capabilities.
#[derive(Debug)]
pub struct Model {
    pub patterns: Vec<String>,
    pub caps: Capabilities,
}

/// A parsed model-name capability database.
#[derive(Debug)]
pub struct ModelTable {
    pub(crate) defaults: Capabilities,
    pub(crate) models: Vec<Model>,
}

/// An invalid model capability database.
#[derive(Debug)]
pub enum ModelTableError {
    Kelvin { entry: String, field: &'static str, value: u16, source: RangeError },
    ReversedRange(String),
    EmptyPatterns,
    DuplicatePattern { pattern: String },
}

/// What is wrong with a database.
#[verifier::ext_equal]
pub enum Fault {
    Kelvin { entry: Seq<char>, field: Seq<char>, value: int },
    ReversedRange(Seq<char>),
    EmptyPatterns,
    DuplicatePattern(Seq<char>),
}

impl View for ModelTableError {
    type V = Fault;

    open spec fn view(&self) -> Fault {
        match *self {
            ModelTableError::Kelvin { entry, field, value, .. } => Fault::Kelvin {
                entry: entry@,
                field: field@,
                value: value as int,
            },
            ModelTableError::ReversedRange(entry) => Fault::ReversedRange(entry@),
            ModelTableError::EmptyPatterns => Fault::EmptyPatterns,
            ModelTableError::DuplicatePattern { pattern } => Fault::DuplicatePattern(pattern@),
        }
    }
}

impl ModelTableError {
    /// The error's source, where it has one, is that of its value.
    pub open spec fn wf(self) -> bool {
        self matches ModelTableError::Kelvin { value, source, .. } ==> source.is(
            "kelvin"@,
            value as int,
            2500,
            10000,
        )
    }

    /// Describes the error in words.
    pub fn message(&self) -> (text: String)
        ensures
            match *self {
                ModelTableError::Kelvin { entry, field, value, source } => text@ == "invalid "@
                    + field@ + " value "@ + decimal(value as nat) + " in "@ + entry@ + ": "@
                    + source.words(),
                ModelTableError::ReversedRange(entry) => text@
                    == "minimum CCT exceeds maximum CCT in "@ + entry@,
                ModelTableError::EmptyPatterns => text@ == "model entry has no patterns"@,
                ModelTableError::DuplicatePattern { pattern } => text@
                    == "duplicate normalized model pattern "@ + debug_text(pattern@),
            },
    {
        match self {
            ModelTableError::Kelvin { entry, field, value, source } => {
                let mut text = owned("invalid ");
                text.append(field);
                text.append(" value ");
                push_decimal(&mut text, *value as u64);
                text.append(" in ");
                text.append(entry.as_str());
                text.append(": ");
                let cause = source.message();
                text.append(cause.as_str());
                text
            },
            ModelTableError::ReversedRange(entry) => {
                let mut text = owned("minimum CCT exceeds maximum CCT in ");
                text.append(entry.as_str());
                text
            },
            ModelTableError::EmptyPatterns => owned("model entry has no patterns"),
            ModelTableError::DuplicatePattern { pattern } => {
                let mut text = owned("duplicate normalized model pattern ");
                let name = quoted(pattern.as_str());
                text.append(name.as_str());
                text
            },
        }
    }
}

/// A name without spaces and dashes, in upper case.
pub open spec fn normalized(name: Seq<char>) -> Seq<char>
    decreases name.len(),
{
    if name.len() == 0 {
        name
    } else {
        let head = normalized(name.drop_last());
        if name.last() == ' ' || name.last() == '-' {
            head
        } else {
            head + uppercase(name.last())
        }
    }
}

/// A name is normalized part by part.
pub proof fn normalized_adds(a: Seq<char>, b: Seq<char>)
    ensures
        normalized(a + b) == normalized(a) + normalized(b),
    decreases b.len(),
{
    if b.len() == 0 {
        assert(a + b =~= a);
        assert(normalized(a) + normalized(b) =~= normalized(a));
    } else {
        normalized_adds(a, b.drop_last());
        assert((a + b).drop_last() =~= a + b.drop_last());
        assert(normalized(a + b) =~= normalized(a) + normalized(b));
    }
}

/// Spaces and dashes in a name do not matter.
pub proof fn spacing_does_not_matter(a: Seq<char>, gap: char, b: Seq<char>)
    requires
        gap == ' ' || gap == '-',
    ensures
        normalized(a + seq![gap] + b) == normalized(a + b),
{
    normalized_adds(a + seq![gap], b);
    normalized_adds(a, b);
    assert((a + seq![gap]).drop_last() =~= a);
}

/// Removes spaces and dashes from a name and puts it in upper case.
pub fn normalize(value: &str) -> (r: String)
    ensures
        r@ == normalized(value@),
{
    let chars = chars_of(value);
    let mut r = String::new();
    let mut i: usize = 0;
    assert(value@.take(0) =~= Seq::<char>::empty());
    while i < chars.len()
        invariant
            i <= chars@.len(),
            chars@ == value@,
            r@ == normalized(value@.take(i as int)),
        decreases chars.len() - i,
    {
        let c = chars[i];
        assert(value@.take(i + 1).drop_last() =~= value@.take(i as int));
        if c != ' ' && c != '-' {
            let upper = upper_case(c);
            let text = string_of(upper.as_slice());
            r.append(text.as_str());
        }
        i += 1;
    }
    assert(value@.take(i as int) =~= value@);
    r
}

/// What is wrong with capabilities, if anything.
pub open spec fn caps_fault(raw: RawCaps, entry: Seq<char>) -> Option<Fault> {
    if !(2500 <= raw.cct_min <= 10000) {
        Some(Fault::Kelvin { entry, field: "cct_min"@, value: raw.cct_min as int })
    } else if !(2500 <= raw.cct_max <= 10000) {
        Some(Fault::Kelvin { entry, field: "cct_max"@, value: raw.cct_max as int })
    } else if raw.cct_min > raw.cct_max {
        Some(Fault::ReversedRange(entry))
    } else {
        None
    }
}

/// The capabilities that are written down as `raw`.
pub open(crate) spec fn caps_of(raw: RawCaps) -> Capabilities {
    Capabilities {
        cct_min: Kelvin::of(raw.cct_min as int),
        cct_max: Kelvin::of(raw.cct_max as int),
        rgb: raw.rgb,
        scenes: raw.scenes,
        cct_split_packets: raw.cct_split_packets,
        reports_status: raw.reports_status,
    }
}

/// Checks capabilities.
pub fn capabilities(raw: &RawCaps, entry: &str) -> (r: Result<Capabilities, ModelTableError>)
    ensures
        match r {
            Ok(caps) => caps_fault(*raw, entry@) is None && caps == caps_of(*raw) && caps.wf(),
            Err(error) => caps_fault(*raw, entry@) == Some(error@) && error.wf(),
        },
{
    let cct_min = match Kelvin::new(raw.cct_min) {
        Ok(kelvin) => kelvin,
        Err(source) => {
            return Err(
                ModelTableError::Kelvin {
                    entry: owned(entry),
                    field: "cct_min",
                    value: raw.cct_min,
                    source,
                },
            );
        },
    };
    let cct_max = match Kelvin::new(raw.cct_max) {
        Ok(kelvin) => kelvin,
        Err(source) => {
            return Err(
                ModelTableError::Kelvin {
                    entry: owned(entry),
                    field: "cct_max",
                    value: raw.cct_max,
                    source,
                },
            );
        },
    };
    if cct_min.get() > cct_max.get() {
        return Err(ModelTableError::ReversedRange(owned(entry)));
    }
    Ok(
        Capabilities {
            cct_min,
            cct_max,
            rgb: raw.rgb,
            scenes: raw.scenes,
            cct_split_packets: raw.cct_split_packets,
            reports_status: raw.reports_status,
        },
    )
}

/// A model's own setting, or the default one.
pub open spec fn setting<T>(own: Option<T>, default: T) -> T {
    match own {
        Some(value) => value,
        None => default,
    }
}

/// The settings of a model, with the defaults for those that it leaves out.
pub open spec fn merged(model: RawModel, defaults: RawCaps) -> RawCaps {
    RawCaps {
        cct_min: setting(model.cct_min, defaults.cct_min),
        cct_max: setting(model.cct_max, defaults.cct_max),
        rgb: setting(model.rgb, defaults.rgb),
        scenes: setting(model.scenes, defaults.scenes),
        cct_split_packets: setting(model.cct_split_packets, defaults.cct_split_packets),
        reports_status: setting(model.reports_status, defaults.reports_status),
    }
}

/// The contents of some strings.
pub open spec fn strings(texts: Seq<String>) -> Seq<Seq<char>> {
    texts.map_values(|text: String| text@)
}

/// Texts with a slash between every two of them.
pub open spec fn joined(texts: Seq<Seq<char>>) -> Seq<char>
    decreases texts.len(),
{
    if texts.len() == 0 {
        Seq::empty()
    } else if texts.len() == 1 {
        texts[0]
    } else {
        joined(texts.drop_last()) + seq!['/'] + texts.last()
    }
}

/// The normalized patterns of a model.
pub open spec fn patterns_of(model: RawModel) -> Seq<Seq<char>> {
    model.patterns@.map_values(|pattern: String| normalized(pattern@))
}

/// The normalized patterns of the first `n` models.
pub open spec fn seen_before(models: Seq<RawModel>, n: int) -> Seq<Seq<char>>
    decreases n,
{
    if n <= 0 {
        Seq::empty()
    } else {
        seen_before(models, n - 1) + patterns_of(models[n - 1])
    }
}

/// The first of the first `n` patterns that has been seen before it, if any.
pub open spec fn first_duplicate(
    seen: Seq<Seq<char>>,
    patterns: Seq<Seq<char>>,
    n: int,
) -> Option<Seq<char>>
    decreases n,
{
    if n <= 0 {
        None
    } else {
        match first_duplicate(seen, patterns, n - 1) {
            Some(pattern) => Some(pattern),
            None => if (seen + patterns.take(n - 1)).contains(patterns[n - 1]) {
                Some(patterns[n - 1])
            } else {
                None
            },
        }
    }
}

/// What is wrong with a model, if anything.
pub open spec fn model_fault(
    model: RawModel,
    defaults: RawCaps,
    seen: Seq<Seq<char>>,
) -> Option<Fault> {
    let patterns = patterns_of(model);
    if patterns.len() == 0 {
        Some(Fault::EmptyPatterns)
    } else {
        match first_duplicate(seen, patterns, patterns.len() as int) {
            Some(pattern) => Some(Fault::DuplicatePattern(pattern)),
            None => caps_fault(merged(model, defaults), joined(strings(model.patterns@))),
        }
    }
}

/// What is wrong with the first faulty of the first `n` models, if any is.
pub open spec fn models_fault(table: RawTable, n: int) -> Option<Fault>
    decreases n,
{
    if n <= 0 {
        None
    } else {
        match models_fault(table, n - 1) {
            Some(fault) => Some(fault),
            None => model_fault(
                table.models@[n - 1],
                table.defaults,
                seen_before(table.models@, n - 1),
            ),
        }
    }
}

/// What is wrong with a database, if anything.
pub open spec fn table_fault(table: RawTable) -> Option<Fault> {
    match caps_fault(table.defaults, "defaults"@) {
        Some(fault) => Some(fault),
        None => models_fault(table, table.models@.len() as int),
    }
}

proof fn model_faults_persist(table: RawTable, k: int, n: int)
    requires
        0 <= k <= n,
        models_fault(table, k) is Some,
    ensures
        models_fault(table, n) == models_fault(table, k),
    decreases n - k,
{
    if k < n {
        model_faults_persist(table, k, n - 1);
    }
}

proof fn duplicates_persist(seen: Seq<Seq<char>>, patterns: Seq<Seq<char>>, k: int, n: int)
    requires
        0 <= k <= n,
        first_duplicate(seen, patterns, k) is Some,
    ensures
        first_duplicate(seen, patterns, n) == first_duplicate(seen, patterns, k),
    decreases n - k,
{
    if k < n {
        duplicates_persist(seen, patterns, k, n - 1);
    }
}

/// The names of a model and its capabilities.
#[verifier::ext_equal]
pub struct ModelEntry {
    pub patterns: Seq<Seq<char>>,
    pub caps: Capabilities,
}

impl View for Model {
    type V = ModelEntry;

    open spec fn view(&self) -> ModelEntry {
        ModelEntry { patterns: strings(self.patterns@), caps: self.caps }
    }
}

/// The entry of a model in a database without faults.
pub open(crate) spec fn entry_of(model: RawModel, defaults: RawCaps) -> ModelEntry {
    ModelEntry { patterns: patterns_of(model), caps: caps_of(merged(model, defaults)) }
}

/// The number of bytes of a text.
pub open spec fn byte_length(s: Seq<char>) -> usize {
    encode_utf8(s).len() as usize
}

/// The longest of the first `n` patterns of an entry that occurs in a name, the
/// last of equally long ones, unless an earlier find is longer.
pub open spec fn best_pattern(
    name: Seq<char>,
    patterns: Seq<Seq<char>>,
    n: int,
    caps: Capabilities,
    best: Option<(Seq<char>, Capabilities)>,
) -> Option<(Seq<char>, Capabilities)>
    decreases n,
{
    if n <= 0 {
        best
    } else {
        let found = best_pattern(name, patterns, n - 1, caps, best);
        let pattern = patterns[n - 1];
        if occurs(name, pattern) && (found matches Some(other) ==> byte_length(other.0)
            <= byte_length(pattern)) {
            Some((pattern, caps))
        } else {
            found
        }
    }
}

/// The longest pattern of the first `n` entries that occurs in a name.
pub open spec fn best_entry(name: Seq<char>, entries: Seq<ModelEntry>, n: int) -> Option<
    (Seq<char>, Capabilities),
>
    decreases n,
{
    if n <= 0 {
        None
    } else {
        let entry = entries[n - 1];
        best_pattern(
            name,
            entry.patterns,
            entry.patterns.len() as int,
            entry.caps,
            best_entry(name, entries, n - 1),
        )
    }
}

/// Nothing that occurs in a name is longer than the pattern that is found for it.
pub proof fn longest_pattern_wins(name: Seq<char>, entries: Seq<ModelEntry>, n: int, i: int, j: int)
    requires
        0 <= i < n <= entries.len(),
        0 <= j < entries[i].patterns.len(),
        occurs(name, entries[i].patterns[j]),
    ensures
        best_entry(name, entries, n) matches Some(found) && occurs(name, found.0) && byte_length(
            entries[i].patterns[j],
        ) <= byte_length(found.0),
    decreases n,
{
    let entry = entries[n - 1];
    let before = best_entry(name, entries, n - 1);
    found_patterns_occur(name, entries, n - 1);
    if i < n - 1 {
        longest_pattern_wins(name, entries, n - 1, i, j);
        best_pattern_grows(name, entry.patterns, entry.patterns.len() as int, entry.caps, before);
    } else {
        best_pattern_grows(name, entry.patterns, entry.patterns.len() as int, entry.caps, before);
        best_pattern_covers(
            name,
            entry.patterns,
            entry.patterns.len() as int,
            entry.caps,
            before,
            j,
        );
    }
}

proof fn found_patterns_occur(name: Seq<char>, entries: Seq<ModelEntry>, n: int)
    requires
        0 <= n <= entries.len(),
    ensures
        best_entry(name, entries, n) matches Some(found) ==> occurs(name, found.0),
    decreases n,
{
    if n > 0 {
        found_patterns_occur(name, entries, n - 1);
        let entry = entries[n - 1];
        best_pattern_grows(
            name,
            entry.patterns,
            entry.patterns.len() as int,
            entry.caps,
            best_entry(name, entries, n - 1),
        );
    }
}

proof fn best_pattern_grows(
    name: Seq<char>,
    patterns: Seq<Seq<char>>,
    n: int,
    caps: Capabilities,
    best: Option<(Seq<char>, Capabilities)>,
)
    requires
        best matches Some(found) ==> occurs(name, found.0),
    ensures
        best_pattern(name, patterns, n, caps, best) matches Some(found) ==> occurs(name, found.0),
        best matches Some(old) ==> (best_pattern(name, patterns, n, caps, best) matches Some(
            found,
        ) && byte_length(old.0) <= byte_length(found.0)),
    decreases n,
{
    if n > 0 {
        best_pattern_grows(name, patterns, n - 1, caps, best);
    }
}

proof fn best_pattern_covers(
    name: Seq<char>,
    patterns: Seq<Seq<char>>,
    n: int,
    caps: Capabilities,
    best: Option<(Seq<char>, Capabilities)>,
    j: int,
)
    requires
        0 <= j < n <= patterns.len(),
        occurs(name, patterns[j]),
    ensures
        best_pattern(name, patterns, n, caps, best) matches Some(found) && byte_length(patterns[j])
            <= byte_length(found.0),
    decreases n,
{
    if j < n - 1 {
        best_pattern_covers(name, patterns, n - 1, caps, best, j);
    }
}

/// Entries whose temperature limits are in order.
pub open spec fn entries_wf(entries: Seq<ModelEntry>) -> bool {
    forall|i: int| 0 <= i < entries.len() ==> (#[trigger] entries[i]).caps.ordered()
}

proof fn best_entry_is_ordered(name: Seq<char>, entries: Seq<ModelEntry>, n: int)
    requires
        entries_wf(entries),
        0 <= n <= entries.len(),
    ensures
        best_entry(name, entries, n) matches Some(found) ==> found.1.ordered(),
    decreases n,
{
    if n > 0 {
        best_entry_is_ordered(name, entries, n - 1);
        let entry = entries[n - 1];
        best_pattern_is_ordered(
            name,
            entry.patterns,
            entry.patterns.len() as int,
            entry.caps,
            best_entry(name, entries, n - 1),
        );
    }
}

proof fn best_pattern_is_ordered(
    name: Seq<char>,
    patterns: Seq<Seq<char>>,
    n: int,
    caps: Capabilities,
    best: Option<(Seq<char>, Capabilities)>,
)
    requires
        caps.ordered(),
        best matches Some(found) ==> found.1.ordered(),
    ensures
        best_pattern(name, patterns, n, caps, best) matches Some(found) ==> found.1.ordered(),
    decreases n,
{
    if n > 0 {
        best_pattern_is_ordered(name, patterns, n - 1, caps, best);
    }
}

fn has_text(texts: &Vec<String>, text: &String) -> (r: bool)
    ensures
        r == strings(texts@).contains(text@),
{
    let mut i: usize = 0;
    while i < texts.len()
        invariant
            i <= texts@.len(),
            forall|j: int| 0 <= j < i ==> #[trigger] strings(texts@)[j] != text@,
        decreases texts.len() - i,
    {
        if texts[i] == *text {
            assert(strings(texts@)[i as int] == text@);
            return true;
        }
        i += 1;
    }
    false
}

fn join_patterns(patterns: &Vec<String>) -> (r: String)
    ensures
        r@ == joined(strings(patterns@)),
{
    if patterns.len() == 0 {
        return String::new();
    }
    let ghost texts = strings(patterns@);
    let mut r = patterns[0].clone();
    let mut i: usize = 1;
    assert(texts.take(1) =~= seq![texts[0]]);
    while i < patterns.len()
        invariant
            1 <= i <= patterns@.len(),
            texts == strings(patterns@),
            r@ == joined(texts.take(i as int)),
        decreases patterns.len() - i,
    {
        assert(texts.take(i + 1).drop_last() =~= texts.take(i as int));
        r.push('/');
        r.append(patterns[i].as_str());
        assert(r@ =~= joined(texts.take(i + 1)));
        i += 1;
    }
    assert(texts.take(i as int) =~= texts);
    r
}

fn pick<T: Copy>(own: Option<T>, default: T) -> (r: T)
    ensures
        r == setting(own, default),
{
    match own {
        Some(value) => value,
        None => default,
    }
}

/// Normalizes the patterns of a model and adds them to those that have been seen.
fn take_patterns(model: &RawModel, seen: &mut Vec<String>) -> (r: Result<
    Vec<String>,
    ModelTableError,
>)
    ensures
        ({
            let patterns = patterns_of(*model);
            let duplicate = first_duplicate(strings(old(seen)@), patterns, patterns.len() as int);
            match r {
                Ok(taken) => patterns.len() > 0 && duplicate is None && strings(taken@) == patterns
                    && strings(final(seen)@) == strings(old(seen)@) + patterns,
                Err(error) => error.wf() && error@ == if patterns.len() == 0 {
                    Fault::EmptyPatterns
                } else {
                    Fault::DuplicatePattern(duplicate->0)
                } && (patterns.len() == 0 || duplicate is Some),
            }
        }),
{
    if model.patterns.len() == 0 {
        return Err(ModelTableError::EmptyPatterns);
    }
    let ghost patterns = patterns_of(*model);
    let ghost before = strings(seen@);
    let mut taken: Vec<String> = Vec::new();
    let mut i: usize = 0;
    while i < model.patterns.len()
        invariant
            i <= model.patterns@.len(),
            patterns == patterns_of(*model),
            patterns.len() > 0,
            before == strings(old(seen)@),
            strings(taken@) == patterns.take(i as int),
            strings(seen@) == before + patterns.take(i as int),
            first_duplicate(before, patterns, i as int) is None,
        decreases model.patterns.len() - i,
    {
        let pattern = normalize(model.patterns[i].as_str());
        assert(patterns[i as int] == pattern@);
        if has_text(seen, &pattern) {
            proof {
                duplicates_persist(before, patterns, i + 1, patterns.len() as int);
            }
            return Err(ModelTableError::DuplicatePattern { pattern });
        }
        let ghost s = seen@;
        let ghost t = taken@;
        seen.push(pattern.clone());
        taken.push(pattern);
        assert(strings(seen@) =~= strings(s).push(patterns[i as int]));
        assert(strings(taken@) =~= strings(t).push(patterns[i as int]));
        assert(patterns.take(i + 1) =~= patterns.take(i as int).push(patterns[i as int]));
        assert(strings(seen@) =~= before + patterns.take(i + 1));
        i += 1;
    }
    assert(patterns.take(i as int) =~= patterns);
    Ok(taken)
}

impl ModelTable {
    /// The entries of the database, in order.
    pub open(crate) spec fn entries(self) -> Seq<ModelEntry> {
        self.models@.map_values(|model: Model| model@)
    }

    /// The capabilities of a model that the database does not know.
    pub open(crate) spec fn fallback(self) -> Capabilities {
        self.defaults
    }

    /// All temperature limits are in order.
    #[verifier::type_invariant]
    pub open(crate) spec fn wf(self) -> bool {
        self.defaults.ordered() && entries_wf(self.entries())
    }

    /// Validates a capability database.
    pub fn from_raw(raw: &RawTable) -> (r: Result<Self, ModelTableError>)
        ensures
            match r {
                Ok(table) => {
                    &&& table_fault(*raw) is None
                    &&& table.fallback() == caps_of(raw.defaults)
                    &&& table.entries() == raw.models@.map_values(
                        |model: RawModel| entry_of(model, raw.defaults),
                    )
                },
                Err(error) => table_fault(*raw) == Some(error@) && error.wf(),
            },
    {
        let defaults = match capabilities(&raw.defaults, "defaults") {
            Ok(caps) => caps,
            Err(error) => {
                return Err(error);
            },
        };
        let ghost wanted = raw.models@.map_values(
            |model: RawModel| entry_of(model, raw.defaults),
        );
        let ghost total = raw.models@.len() as int;
        let mut seen: Vec<String> = Vec::new();
        let mut models: Vec<Model> = Vec::new();
        let mut i: usize = 0;
        assert(strings(seen@) =~= seen_before(raw.models@, 0));
        while i < raw.models.len()
            invariant
                i <= raw.models@.len(),
                total == raw.models@.len(),
                caps_fault(raw.defaults, "defaults"@) is None,
                models_fault(*raw, i as int) is None,
                strings(seen@) == seen_before(raw.models@, i as int),
                wanted == raw.models@.map_values(
                    |model: RawModel| entry_of(model, raw.defaults),
                ),
                models@.len() == i,
                forall|j: int|
                    0 <= j < i ==> (#[trigger] models@[j])@ == wanted[j]
                        && models@[j].caps.ordered(),
            decreases raw.models.len() - i,
        {
            let model = &raw.models[i];
            proof {
                if model_fault(*model, raw.defaults, seen_before(raw.models@, i as int)) is Some {
                    model_faults_persist(*raw, i + 1, total);
                }
            }
            let patterns = match take_patterns(model, &mut seen) {
                Ok(patterns) => patterns,
                Err(error) => {
                    return Err(error);
                },
            };
            let settings = RawCaps {
                cct_min: pick(model.cct_min, raw.defaults.cct_min),
                cct_max: pick(model.cct_max, raw.defaults.cct_max),
                rgb: pick(model.rgb, raw.defaults.rgb),
                scenes: pick(model.scenes, raw.defaults.scenes),
                cct_split_packets: pick(model.cct_split_packets, raw.defaults.cct_split_packets),
                reports_status: pick(model.reports_status, raw.defaults.reports_status),
            };
            assert(settings == merged(*model, raw.defaults));
            let entry = join_patterns(&model.patterns);
            let caps = match capabilities(&settings, entry.as_str()) {
                Ok(caps) => caps,
                Err(error) => {
                    return Err(error);
                },
            };
            let entry = Model { patterns, caps };
            assert(entry@ =~= wanted[i as int]);
            models.push(entry);
            i += 1;
        }
        assert(models@.map_values(|model: Model| model@) =~= wanted);
        let ghost entries = models@.map_values(|model: Model| model@);
        assert forall|j: int| 0 <= j < entries.len() implies (
        #[trigger] entries[j]).caps.ordered() by {
            assert(models@[j].caps.ordered());
        }
        Ok(ModelTable { defaults, models })
    }

    /// Resolves an advertised device name using longest normalized substring match.
    pub fn resolve(&self, advertised_name: &str) -> (r: Capabilities)
        ensures
            r == match best_entry(
                normalized(advertised_name@),
                self.entries(),
                self.entries().len() as int,
            ) {
                Some(found) => found.1,
                None => self.fallback(),
            },
            r.ordered(),
    {
        proof {
            use_type_invariant(self);
        }
        let name = normalize(advertised_name);
        let chars = chars_of(name.as_str());
        let ghost entries = self.entries();
        let mut best: Option<(usize, usize)> = None;
        let mut i: usize = 0;
        while i < self.models.len()
            invariant
                i <= self.models@.len(),
                entries == self.entries(),
                chars@ == name@,
                match best {
                    Some((m, p)) => m < i && p < self.models@[m as int].patterns@.len()
                        && best_entry(name@, entries, i as int) == Some(
                        (
                            self.models@[m as int].patterns@[p as int]@,
                            self.models@[m as int].caps,
                        ),
                    ),
                    None => best_entry(name@, entries, i as int) is None,
                },
            decreases self.models.len() - i,
        {
            let model = &self.models[i];
            let ghost before = best_entry(name@, entries, i as int);
            let ghost patterns = entries[i as int].patterns;
            let mut j: usize = 0;
            while j < model.patterns.len()
                invariant
                    i < self.models@.len(),
                    j <= model.patterns@.len(),
                    *model == self.models@[i as int],
                    entries == self.entries(),
                    patterns == entries[i as int].patterns,
                    chars@ == name@,
                    match best {
                        Some((m, p)) => m <= i && p < self.models@[m as int].patterns@.len()
                            && best_pattern(name@, patterns, j as int, model.caps, before) == Some(
                            (
                                self.models@[m as int].patterns@[p as int]@,
                                self.models@[m as int].caps,
                            ),
                        ),
                        None => best_pattern(name@, patterns, j as int, model.caps, before) is None,
                    },
                decreases model.patterns.len() - j,
            {
                let pattern = chars_of(model.patterns[j].as_str());
                assert(patterns[j as int] == pattern@);
                if contains(chars.as_slice(), pattern.as_slice()) {
                    let longer = match best {
                        Some((m, p)) => self.models[m].patterns[p].as_str().len()
                            <= model.patterns[j].as_str().len(),
                        None => true,
                    };
                    if longer {
                        best = Some((i, j));
                    }
                }
                j += 1;
            }
            i += 1;
        }
        proof {
            best_entry_is_ordered(name@, entries, entries.len() as int);
        }
        match best {
            Some((m, _)) => self.models[m].caps,
            None => self.defaults,
        }
    }
}

/// What a model says of itself counts, whatever the defaults are; only what it leaves
/// out is as the defaults have it. Its patterns are normalized one by one.
pub proof fn models_count_for_themselves(model: RawModel, defaults: RawCaps)
    requires
        model.cct_min matches Some(kelvin) ==> 2500 <= kelvin <= 10000,
        model.cct_max matches Some(kelvin) ==> 2500 <= kelvin <= 10000,
        2500 <= defaults.cct_min <= 10000,
        2500 <= defaults.cct_max <= 10000,
    ensures
        ({
            let entry = entry_of(model, defaults);
            let caps = entry.caps;
            &&& model.cct_min matches Some(kelvin) ==> caps.cct_min@ == kelvin
            &&& model.cct_min is None ==> caps.cct_min@ == defaults.cct_min
            &&& model.cct_max matches Some(kelvin) ==> caps.cct_max@ == kelvin
            &&& model.cct_max is None ==> caps.cct_max@ == defaults.cct_max
            &&& model.rgb matches Some(own) ==> caps.rgb == own
            &&& model.rgb is None ==> caps.rgb == defaults.rgb
            &&& model.scenes matches Some(own) ==> caps.scenes == own
            &&& model.scenes is None ==> caps.scenes == defaults.scenes
            &&& model.cct_split_packets matches Some(own) ==> caps.cct_split_packets == own
            &&& model.cct_split_packets is None ==> caps.cct_split_packets
                == defaults.cct_split_packets
            &&& model.reports_status matches Some(own) ==> caps.reports_status == own
            &&& model.reports_status is None ==> caps.reports_status == defaults.reports_status
            &&& entry.patterns.len() == model.patterns@.len()
            &&& forall|k: int|
                0 <= k < model.patterns@.len() ==> #[trigger] entry.patterns[k] == normalized(
                    model.patterns@[k]@,
                )
        }),
{
}

/// The defaults are the capabilities of a model that no entry is for.
pub proof fn defaults_are_as_they_are_written(raw: RawCaps)
    requires
        2500 <= raw.cct_min <= 10000,
        2500 <= raw.cct_max <= 10000,
    ensures
        ({
            let caps = caps_of(raw);
            &&& caps.cct_min@ == raw.cct_min
            &&& caps.cct_max@ == raw.cct_max
            &&& caps.rgb == raw.rgb
            &&& caps.scenes == raw.scenes
            &&& caps.cct_split_packets == raw.cct_split_packets
            &&& caps.reports_status == raw.reports_status
        }),
{
}

/// A character on its own is normalized to its upper case, and a space or a dash to
/// nothing.
pub proof fn characters_are_normalized(c: char)
    ensures
        normalized(Seq::empty()) == Seq::<char>::empty(),
        c == ' ' || c == '-' ==> normalized(seq![c]) == Seq::<char>::empty(),
        c != ' ' && c != '-' ==> normalized(seq![c]) == uppercase(c),
{
    assert(seq![c].drop_last() =~= Seq::<char>::empty());
    assert(Seq::<char>::empty() + uppercase(c) =~= uppercase(c));
}

/// Patterns are as long as the bytes that they are stored in.
pub proof fn patterns_are_measured_in_bytes(pattern: Seq<char>)
    requires
        encode_utf8(pattern).len() <= usize::MAX,
    ensures
        byte_length(pattern) == encode_utf8(pattern).len(),
{
}

/// Pattern `b` of entry `a` gives way to pattern `j` of entry `i`: it is shorter, or as
/// long and not behind it.
pub open spec fn gives_way(entries: Seq<ModelEntry>, a: int, b: int, i: int, j: int) -> bool {
    let length = byte_length(entries[a].patterns[b]);
    let best = byte_length(entries[i].patterns[j]);
    length < best || (length == best && (a < i || (a == i && b <= j)))
}

proof fn best_pattern_stays(
    name: Seq<char>,
    patterns: Seq<Seq<char>>,
    n: int,
    caps: Capabilities,
    best: Option<(Seq<char>, Capabilities)>,
)
    requires
        n <= patterns.len(),
        forall|b: int|
            0 <= b < n && occurs(name, #[trigger] patterns[b]) ==> (best matches Some(other)
                && byte_length(patterns[b]) < byte_length(other.0)),
    ensures
        best_pattern(name, patterns, n, caps, best) == best,
    decreases n,
{
    if n > 0 {
        best_pattern_stays(name, patterns, n - 1, caps, best);
    }
}

proof fn best_pattern_is_no_longer(
    name: Seq<char>,
    patterns: Seq<Seq<char>>,
    n: int,
    caps: Capabilities,
    best: Option<(Seq<char>, Capabilities)>,
    most: int,
)
    requires
        n <= patterns.len(),
        best matches Some(other) ==> byte_length(other.0) <= most,
        forall|b: int|
            0 <= b < n && occurs(name, #[trigger] patterns[b]) ==> byte_length(patterns[b]) <= most,
    ensures
        best_pattern(name, patterns, n, caps, best) matches Some(found) ==> byte_length(found.0)
            <= most,
    decreases n,
{
    if n > 0 {
        best_pattern_is_no_longer(name, patterns, n - 1, caps, best, most);
    }
}

proof fn best_pattern_at(
    name: Seq<char>,
    patterns: Seq<Seq<char>>,
    n: int,
    caps: Capabilities,
    best: Option<(Seq<char>, Capabilities)>,
    j: int,
)
    requires
        0 <= j < n <= patterns.len(),
        occurs(name, patterns[j]),
        best matches Some(other) ==> byte_length(other.0) <= byte_length(patterns[j]),
        forall|b: int|
            0 <= b < n && occurs(name, #[trigger] patterns[b]) ==> byte_length(patterns[b])
                < byte_length(patterns[j]) || (byte_length(patterns[b]) == byte_length(patterns[j])
                && b <= j),
    ensures
        best_pattern(name, patterns, n, caps, best) == Some((patterns[j], caps)),
    decreases n,
{
    if n - 1 == j {
        best_pattern_is_no_longer(
            name,
            patterns,
            n - 1,
            caps,
            best,
            byte_length(patterns[j]) as int,
        );
    } else {
        best_pattern_at(name, patterns, n - 1, caps, best, j);
    }
}

proof fn best_entry_is_no_longer(name: Seq<char>, entries: Seq<ModelEntry>, n: int, most: int)
    requires
        0 <= n <= entries.len(),
        forall|a: int, b: int|
            0 <= a < n && 0 <= b < entries[a].patterns.len() && occurs(
                name,
                #[trigger] entries[a].patterns[b],
            ) ==> byte_length(entries[a].patterns[b]) <= most,
    ensures
        best_entry(name, entries, n) matches Some(found) ==> byte_length(found.0) <= most,
    decreases n,
{
    if n > 0 {
        best_entry_is_no_longer(name, entries, n - 1, most);
        let patterns = entries[n - 1].patterns;
        assert forall|b: int|
            0 <= b < patterns.len() && occurs(name, #[trigger] patterns[b]) implies byte_length(
            patterns[b],
        ) <= most by {
            assert(entries[n - 1].patterns[b] == patterns[b]);
        }
        best_pattern_is_no_longer(
            name,
            patterns,
            patterns.len() as int,
            entries[n - 1].caps,
            best_entry(name, entries, n - 1),
            most,
        );
    }
}

proof fn best_entry_at(name: Seq<char>, entries: Seq<ModelEntry>, n: int, i: int, j: int)
    requires
        0 <= i < n <= entries.len(),
        0 <= j < entries[i].patterns.len(),
        occurs(name, entries[i].patterns[j]),
        forall|a: int, b: int|
            0 <= a < n && 0 <= b < entries[a].patterns.len() && occurs(
                name,
                #[trigger] entries[a].patterns[b],
            ) ==> gives_way(entries, a, b, i, j),
    ensures
        best_entry(name, entries, n) == Some((entries[i].patterns[j], entries[i].caps)),
    decreases n,
{
    let patterns = entries[n - 1].patterns;
    let before = best_entry(name, entries, n - 1);
    if n - 1 == i {
        best_entry_is_no_longer(name, entries, n - 1, byte_length(patterns[j]) as int);
        assert forall|b: int|
            0 <= b < patterns.len() && occurs(name, #[trigger] patterns[b]) implies byte_length(
            patterns[b],
        ) < byte_length(patterns[j]) || (byte_length(patterns[b]) == byte_length(patterns[j]) && b
            <= j) by {
            assert(entries[n - 1].patterns[b] == patterns[b]);
            assert(gives_way(entries, n - 1, b, i, j));
        }
        best_pattern_at(name, patterns, patterns.len() as int, entries[i].caps, before, j);
    } else {
        best_entry_at(name, entries, n - 1, i, j);
        assert forall|b: int|
            0 <= b < patterns.len() && occurs(name, #[trigger] patterns[b]) implies (before matches Some(
            other,
        ) && byte_length(patterns[b]) < byte_length(other.0)) by {
            assert(entries[n - 1].patterns[b] == patterns[b]);
            assert(gives_way(entries, n - 1, b, i, j));
        }
        best_pattern_stays(
            name,
            patterns,
            patterns.len() as int,
            entries[n - 1].caps,
            before,
        );
    }
}

/// A name has the capabilities of the entry with the longest pattern that occurs in it,
/// of the last such pattern where there are several.
pub proof fn the_last_longest_pattern_decides(
    name: Seq<char>,
    entries: Seq<ModelEntry>,
    i: int,
    j: int,
)
    requires
        0 <= i < entries.len(),
        0 <= j < entries[i].patterns.len(),
        occurs(name, entries[i].patterns[j]),
        forall|a: int, b: int|
            0 <= a < entries.len() && 0 <= b < entries[a].patterns.len() && occurs(
                name,
                #[trigger] entries[a].patterns[b],
            ) ==> gives_way(entries, a, b, i, j),
    ensures
        best_entry(name, entries, entries.len() as int) == Some(
            (entries[i].patterns[j], entries[i].caps),
        ),
{
    best_entry_at(name, entries, entries.len() as int, i, j);
}

/// A name that no pattern occurs in has the capabilities of no entry.
pub proof fn unknown_names_match_nothing(name: Seq<char>, entries: Seq<ModelEntry>, n: int)
    requires
        0 <= n <= entries.len(),
        forall|a: int, b: int|
            0 <= a < n && 0 <= b < entries[a].patterns.len() ==> !occurs(
                name,
                #[trigger] entries[a].patterns[b],
            ),
    ensures
        best_entry(name, entries, n) is None,
    decreases n,
{
    if n > 0 {
        unknown_names_match_nothing(name, entries, n - 1);
        let patterns = entries[n - 1].patterns;
        assert forall|b: int| 0 <= b < patterns.len() implies !occurs(
            name,
            #[trigger] patterns[b],
        ) by {
            assert(entries[n - 1].patterns[b] == patterns[b]);
        }
        best_pattern_stays(name, patterns, patterns.len() as int, entries[n - 1].caps, None);
    }
}

/// Two temperature limits that lights can have, in order.
pub open spec fn are_limits(min: int, max: int) -> bool {
    2500 <= min <= max <= 10000
}

/// The limits of a model, with the defaults for what it leaves out.
pub open spec fn own_limits(model: RawModel, defaults: RawCaps) -> (int, int) {
    (
        match model.cct_min {
            Some(kelvin) => kelvin as int,
            None => defaults.cct_min as int,
        },
        match model.cct_max {
            Some(kelvin) => kelvin as int,
            None => defaults.cct_max as int,
        },
    )
}

proof fn no_duplicates(seen: Seq<Seq<char>>, patterns: Seq<Seq<char>>, n: int)
    requires
        0 <= n <= patterns.len(),
    ensures
        first_duplicate(seen, patterns, n) is None <==> {
            &&& forall|b: int| 0 <= b < n ==> !seen.contains(#[trigger] patterns[b])
            &&& forall|a: int, b: int|
                0 <= a < b < n ==> #[trigger] patterns[a] != #[trigger] patterns[b]
        },
    decreases n,
{
    if n > 0 {
        no_duplicates(seen, patterns, n - 1);
        let p = patterns[n - 1];
        let before = seen + patterns.take(n - 1);
        if seen.contains(p) {
            let k = choose|k: int| 0 <= k < seen.len() && seen[k] == p;
            assert(before[k] == p);
        }
        assert forall|a: int| 0 <= a < n - 1 && #[trigger] patterns[a] == p implies before.contains(
            p,
        ) by {
            assert(before[seen.len() + a] == p);
        }
        if before.contains(p) {
            let k = choose|k: int| 0 <= k < before.len() && before[k] == p;
            if k < seen.len() {
                assert(seen[k] == p);
            } else {
                assert(patterns[k - seen.len()] == p);
            }
        }
    }
}

proof fn seen_are_those(models: Seq<RawModel>, n: int, p: Seq<char>)
    requires
        0 <= n <= models.len(),
    ensures
        seen_before(models, n).contains(p) <==> exists|m: int, k: int|
            0 <= m < n && 0 <= k < models[m].patterns@.len() && normalized(
                (#[trigger] models[m].patterns@[k])@,
            ) == p,
    decreases n,
{
    if n > 0 {
        seen_are_those(models, n - 1, p);
        let head = seen_before(models, n - 1);
        let own = patterns_of(models[n - 1]);
        let all = head + own;
        if all.contains(p) {
            let k = choose|k: int| 0 <= k < all.len() && all[k] == p;
            if k < head.len() {
                assert(head[k] == p);
                assert(head.contains(p));
            } else {
                assert(own[k - head.len()] == p);
                assert(normalized(models[n - 1].patterns@[k - head.len()]@) == p);
            }
        }
        if exists|m: int, k: int|
            0 <= m < n && 0 <= k < models[m].patterns@.len() && normalized(
                (#[trigger] models[m].patterns@[k])@,
            ) == p {
            let (m, k) = choose|m: int, k: int|
                0 <= m < n && 0 <= k < models[m].patterns@.len() && normalized(
                    (#[trigger] models[m].patterns@[k])@,
                ) == p;
            if m < n - 1 {
                assert(head.contains(p));
                let j = choose|j: int| 0 <= j < head.len() && head[j] == p;
                assert(all[j] == p);
            } else {
                assert(all[head.len() + k] == p);
            }
        }
    } else {
        assert(!seen_before(models, 0).contains(p));
    }
}

/// A model has patterns and limits that can be, and no pattern that an earlier one, of
/// the same or of another model, is too.
pub open spec fn model_is_sound(table: RawTable, m: int) -> bool {
    let model = table.models@[m];
    let limits = own_limits(model, table.defaults);
    &&& model.patterns@.len() > 0
    &&& are_limits(limits.0, limits.1)
    &&& forall|k: int, other: int, j: int|
        0 <= k < model.patterns@.len() && 0 <= other <= m && 0 <= j
            < table.models@[other].patterns@.len() && (other < m || j < k) ==> normalized(
            (#[trigger] model.patterns@[k])@,
        ) != normalized((#[trigger] table.models@[other].patterns@[j])@)
}

proof fn sound_models_have_no_fault(table: RawTable, m: int)
    requires
        0 <= m < table.models@.len(),
    ensures
        model_fault(table.models@[m], table.defaults, seen_before(table.models@, m)) is None
            <==> model_is_sound(table, m),
{
    let models = table.models@;
    let model = models[m];
    let seen = seen_before(models, m);
    let patterns = patterns_of(model);
    let n = patterns.len() as int;
    no_duplicates(seen, patterns, n);
    if first_duplicate(seen, patterns, n) is None {
        assert forall|k: int, other: int, j: int|
            0 <= k < model.patterns@.len() && 0 <= other <= m && 0 <= j
                < models[other].patterns@.len() && (other < m || j < k) implies normalized(
            (#[trigger] model.patterns@[k])@,
        ) != normalized((#[trigger] models[other].patterns@[j])@) by {
            assert(patterns[k] == normalized(model.patterns@[k]@));
            seen_are_those(models, m, patterns[k]);
            if other == m {
                assert(patterns[j] == normalized(model.patterns@[j]@));
            }
        }
    }
    if model_is_sound(table, m) {
        assert forall|b: int| 0 <= b < n implies !seen.contains(#[trigger] patterns[b]) by {
            seen_are_those(models, m, patterns[b]);
            assert(patterns[b] == normalized(model.patterns@[b]@));
            if seen.contains(patterns[b]) {
                let (other, j) = choose|other: int, j: int|
                    0 <= other < m && 0 <= j < models[other].patterns@.len() && normalized(
                        (#[trigger] models[other].patterns@[j])@,
                    ) == patterns[b];
                assert(normalized(model.patterns@[b]@) != normalized(models[other].patterns@[j]@));
            }
        }
        assert forall|a: int, b: int| 0 <= a < b < n implies #[trigger] patterns[a]
            != #[trigger] patterns[b] by {
            assert(patterns[a] == normalized(model.patterns@[a]@));
            assert(patterns[b] == normalized(model.patterns@[b]@));
            assert(models[m].patterns@[a] == model.patterns@[a]);
        }
    }
}

proof fn sound_models_up_to(table: RawTable, n: int)
    requires
        0 <= n <= table.models@.len(),
    ensures
        models_fault(table, n) is None <==> forall|m: int|
            0 <= m < n ==> #[trigger] model_is_sound(table, m),
    decreases n,
{
    if n > 0 {
        sound_models_up_to(table, n - 1);
        sound_models_have_no_fault(table, n - 1);
        if forall|m: int| 0 <= m < n - 1 ==> #[trigger] model_is_sound(table, m) {
            if model_is_sound(table, n - 1) {
                assert forall|m: int| 0 <= m < n implies #[trigger] model_is_sound(table, m) by {}
            }
        }
    }
}

/// A database is accepted exactly if its defaults have limits that can be and every model
/// has patterns, limits that can be, and no pattern twice.
pub proof fn sound_databases_are_accepted(table: RawTable)
    ensures
        table_fault(table) is None <==> are_limits(
            table.defaults.cct_min as int,
            table.defaults.cct_max as int,
        ) && forall|m: int| 0 <= m < table.models@.len() ==> #[trigger] model_is_sound(table, m),
{
    sound_models_up_to(table, table.models@.len() as int);
}

/// Limits that are not a light's are told by their field and value, and limits in the wrong
/// order as such; the lower limit comes first.
pub proof fn wrong_limits_are_told(raw: RawCaps, entry: Seq<char>)
    ensures
        raw.cct_min < 2500 || raw.cct_min > 10000 ==> caps_fault(raw, entry) == Some(
            Fault::Kelvin { entry, field: "cct_min"@, value: raw.cct_min as int },
        ),
        2500 <= raw.cct_min <= 10000 && (raw.cct_max < 2500 || raw.cct_max > 10000) ==> caps_fault(
            raw,
            entry,
        ) == Some(Fault::Kelvin { entry, field: "cct_max"@, value: raw.cct_max as int }),
        2500 <= raw.cct_max < raw.cct_min <= 10000 ==> caps_fault(raw, entry) == Some(
            Fault::ReversedRange(entry),
        ),
{
}

proof fn duplicates_before(seen: Seq<Seq<char>>, patterns: Seq<Seq<char>>, k: int, n: int)
    requires
        0 <= k < n <= patterns.len(),
        first_duplicate(seen, patterns, k) is None,
        (seen + patterns.take(k)).contains(patterns[k]),
    ensures
        first_duplicate(seen, patterns, n) == Some(patterns[k]),
    decreases n,
{
    if k < n - 1 {
        duplicates_before(seen, patterns, k, n - 1);
    }
}

proof fn no_duplicates_before(seen: Seq<Seq<char>>, patterns: Seq<Seq<char>>, n: int)
    requires
        0 <= n <= patterns.len(),
        forall|k: int|
            0 <= k < n ==> !(seen + patterns.take(k)).contains(#[trigger] patterns[k]),
    ensures
        first_duplicate(seen, patterns, n) is None,
    decreases n,
{
    if n > 0 {
        no_duplicates_before(seen, patterns, n - 1);
        assert(!(seen + patterns.take(n - 1)).contains(patterns[n - 1]));
    }
}

/// Of a model's patterns the first that stood before is told.
pub proof fn the_first_repeated_pattern_is_told(
    model: RawModel,
    defaults: RawCaps,
    seen: Seq<Seq<char>>,
    k: int,
)
    requires
        0 <= k < patterns_of(model).len(),
        (seen + patterns_of(model).take(k)).contains(patterns_of(model)[k]),
        forall|j: int|
            0 <= j < k ==> !(seen + patterns_of(model).take(j)).contains(
                #[trigger] patterns_of(model)[j],
            ),
    ensures
        model_fault(model, defaults, seen) == Some(
            Fault::DuplicatePattern(normalized(model.patterns@[k]@)),
        ),
{
    let patterns = patterns_of(model);
    no_duplicates_before(seen, patterns, k);
    duplicates_before(seen, patterns, k, patterns.len() as int);
}

/// A model is called by its patterns, with a slash between two of them.
pub proof fn models_are_called_by_their_patterns(texts: Seq<Seq<char>>, text: Seq<char>)
    ensures
        joined(seq![text]) == text,
        texts.len() > 0 ==> joined(texts.push(text)) == joined(texts) + "/"@ + text,
{
    reveal_strlit("/");
    assert("/"@ =~= seq!['/']);
    assert(texts.push(text).drop_last() =~= texts);
}

} // verus!
