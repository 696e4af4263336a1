//! What is kept between runs: labels and presets.
use vstd::prelude::*;
use crate::id::{fault_words, id_fault, namespaced, IdError, LightId};
use crate::idmap::IdMap;
use crate::preset::Preset;

verus! {

/// The pause after the last change before changes are written, in milliseconds.
pub const STORE_DEBOUNCE_MS: u64 = 500;

/// A change of what is kept.
#[derive(Clone, Debug)]
pub enum StoreUpdate {
    Label { id: LightId, label: String },
    Presets(Vec<Preset>),
}

/// What is kept between runs.
#[derive(Debug)]
pub struct Stored {
    pub labels: IdMap<String>,
    pub presets: Vec<Preset>,
}

impl Stored {
    /// Takes a change over.
    pub fn apply(&mut self, update: StoreUpdate)
        ensures
            match update {
                StoreUpdate::Label { id, label } => {
                    &&& final(self).presets == old(self).presets
                    &&& forall|other: Seq<char>| #[trigger]
                        final(self).labels.of(other) == if other == id@ {
                            Some(label)
                        } else {
                            old(self).labels.of(other)
                        }
                },
                StoreUpdate::Presets(presets) => {
                    &&& final(self).presets == presets
                    &&& final(self).labels == old(self).labels
                },
            },
    {
        match update {
            StoreUpdate::Label { id, label } => {
                self.labels.insert(id, label);
            },
            StoreUpdate::Presets(presets) => {
                self.presets = presets;
            },
        }
    }
}

/// The label that the first `n` entries give to a light: that of the last one with
/// a text for its identifier.
pub open spec fn label_among(entries: Seq<(String, String)>, id: Seq<char>, n: int) -> Option<
    String,
>
    decreases n,
{
    if n <= 0 {
        None
    } else if namespaced(entries[n - 1].0@) == Some(id) {
        Some(entries[n - 1].1)
    } else {
        label_among(entries, id, n - 1)
    }
}

/// Reads labels by the identifiers of lights. Fails at the first text that is no
/// identifier.
pub fn read_labels(entries: &Vec<(String, String)>) -> (r: Result<IdMap<String>, IdError>)
    ensures
        match r {
            Ok(labels) => {
                &&& forall|i: int|
                    0 <= i < entries@.len() ==> namespaced((#[trigger] entries@[i]).0@) is Some
                &&& forall|id: Seq<char>| #[trigger]
                    labels.of(id) == label_among(entries@, id, entries@.len() as int)
            },
            Err(error) => exists|i: int|
                {
                    &&& 0 <= i < entries@.len()
                    &&& namespaced((#[trigger] entries@[i]).0@) is None
                    &&& fault_words(error.kind@, error.value@) == id_fault(
                        entries@[i].0@,
                    )
                    &&& forall|j: int|
                        0 <= j < i ==> namespaced((#[trigger] entries@[j]).0@) is Some
                },
        },
{
    let mut labels: IdMap<String> = IdMap::new();
    let mut i: usize = 0;
    while i < entries.len()
        invariant
            i <= entries@.len(),
            forall|j: int| 0 <= j < i ==> namespaced((#[trigger] entries@[j]).0@) is Some,
            forall|id: Seq<char>| #[trigger]
                labels.of(id) == label_among(entries@, id, i as int),
        decreases entries.len() - i,
    {
        match LightId::parse(entries[i].0.as_str()) {
            Ok(id) => {
                labels.insert(id, entries[i].1.clone());
            },
            Err(error) => {
                assert(namespaced(entries@[i as int].0@) is None);
                return Err(error);
            },
        }
        i += 1;
    }
    Ok(labels)
}

/// A light has the label that stands last under its identifier, however that is written,
/// and none where it stands nowhere.
pub proof fn the_last_label_counts(
    entries: Seq<(String, String)>,
    id: Seq<char>,
    k: int,
    n: int,
)
    requires
        0 <= n <= entries.len(),
    ensures
        0 <= k < n && namespaced(entries[k].0@) == Some(id) && (forall|j: int|
            k < j < n ==> namespaced((#[trigger] entries[j]).0@) != Some(id)) ==> label_among(
            entries,
            id,
            n,
        ) == Some(entries[k].1),
        (forall|j: int| 0 <= j < n ==> namespaced((#[trigger] entries[j]).0@) != Some(id))
            ==> label_among(entries, id, n) is None,
    decreases n,
{
    if n > 0 {
        the_last_label_counts(entries, id, k, n - 1);
        assert(entries[n - 1] == entries[n - 1]);
    }
}

} // verus!
