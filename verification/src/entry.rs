//! Parsed log messages.
use vstd::prelude::*;

use crate::format::models;
use crate::text::texts;
use crate::value::{model_as_int, model_as_text, model_as_uint, FieldValue, ValueModel};

verus! {

/// A single parsed message from a DataFlash BIN log.
#[derive(Debug, Clone)]
pub struct Entry {
    /// Message type name (e.g. "ATT", "GPS", "BARO")
    pub name: String,
    /// Message type ID (0–255)
    pub msg_type: u8,
    /// Timestamp in microseconds since boot, from the first field where the
    /// format gives it one. None for FMT messages and messages without one.
    pub timestamp_usec: Option<u64>,
    /// Field labels in definition order.
    pub labels: Vec<String>,
    /// Field values in definition order.
    pub values: Vec<FieldValue>,
}

/// What an entry is, in mathematical terms.
pub struct EntryModel {
    pub name: Seq<char>,
    pub msg_type: u8,
    pub timestamp_usec: Option<nat>,
    pub labels: Seq<Seq<char>>,
    pub values: Seq<ValueModel>,
}

/// The model of an optional timestamp.
pub open spec fn time_model(t: Option<u64>) -> Option<nat> {
    match t {
        Some(v) => Some(v as nat),
        None => None,
    }
}

impl View for Entry {
    type V = EntryModel;

    open spec fn view(&self) -> EntryModel {
        EntryModel {
            name: self.name@,
            msg_type: self.msg_type,
            timestamp_usec: time_model(self.timestamp_usec),
            labels: texts(self.labels@),
            values: models(self.values@),
        }
    }
}

/// The models of a list of entries.
pub open spec fn entry_models(v: Seq<Entry>) -> Seq<EntryModel> {
    v.map_values(|e: Entry| e@)
}

/// The index of the first of `labels` that equals `l`.
pub open spec fn position_in(labels: Seq<Seq<char>>, l: Seq<char>) -> Option<nat>
    decreases labels.len(),
{
    if labels.len() == 0 {
        None
    } else if labels[0] == l {
        Some(0)
    } else {
        match position_in(labels.drop_first(), l) {
            Some(k) => Some(k + 1),
            None => None,
        }
    }
}

/// The value of the field labelled `field`: the one at the position of the first such label.
pub open spec fn lookup(e: EntryModel, field: Seq<char>) -> Option<ValueModel> {
    match position_in(e.labels, field) {
        Some(i) => if i < e.values.len() {
            Some(e.values[i as int])
        } else {
            None
        },
        None => None,
    }
}

/// `p` moved `i` places on.
pub open spec fn shifted(p: Option<nat>, i: nat) -> Option<nat> {
    match p {
        Some(k) => Some(k + i),
        None => None,
    }
}

impl Entry {
    /// Look up a field by name.
    pub fn get(&self, field: &str) -> (r: Option<&FieldValue>)
        ensures
            match r {
                Some(v) => lookup(self@, field@) == Some(v@),
                None => lookup(self@, field@) is None,
            },
    {
        let target = String::from_str(field);
        let n = self.labels.len();
        let mut i: usize = 0;
        let ghost labels = texts(self.labels@);
        assert(labels.skip(0) =~= labels);
        while i < n
            invariant
                i <= n,
                n == self.labels@.len(),
                labels == texts(self.labels@),
                target@ == field@,
                position_in(labels, field@) == shifted(position_in(labels.skip(i as int), field@), i as nat),
            decreases n - i,
        {
            let ghost rest = labels.skip(i as int);
            assert(rest.drop_first() =~= labels.skip(i + 1));
            assert(rest[0] == self.labels@[i as int]@);
            if self.labels[i] == target {
                if i < self.values.len() {
                    return Some(&self.values[i]);
                } else {
                    return None;
                }
            }
            i = i + 1;
        }
        assert(labels.skip(n as int) =~= Seq::<Seq<char>>::empty());
        None
    }

    /// Look up a field and convert to i64.
    pub fn get_i64(&self, field: &str) -> (r: Option<i64>)
        ensures
            match r {
                Some(v) => lookup(self@, field@) matches Some(m) && model_as_int(m) == Some(v as int),
                None => !(lookup(self@, field@) matches Some(m) && model_as_int(m) is Some),
            },
    {
        match self.get(field) {
            Some(v) => v.as_i64(),
            None => None,
        }
    }

    /// Look up a field and convert to u64.
    pub fn get_u64(&self, field: &str) -> (r: Option<u64>)
        ensures
            match r {
                Some(v) => lookup(self@, field@) matches Some(m) && model_as_uint(m) == Some(v as nat),
                None => !(lookup(self@, field@) matches Some(m) && model_as_uint(m) is Some),
            },
    {
        match self.get(field) {
            Some(v) => v.as_u64(),
            None => None,
        }
    }

    /// Look up a field and convert to string reference.
    pub fn get_str(&self, field: &str) -> (r: Option<&str>)
        ensures
            match r {
                Some(s) => lookup(self@, field@) matches Some(m) && model_as_text(m) == Some(s@),
                None => !(lookup(self@, field@) matches Some(m) && model_as_text(m) is Some),
            },
    {
        match self.get(field) {
            Some(v) => v.as_str(),
            None => None,
        }
    }

    /// The (label, value) pairs in definition order.
    pub fn fields(&self) -> (r: Vec<(&str, &FieldValue)>)
        ensures
            r@.len() == if self@.labels.len() < self@.values.len() {
                self@.labels.len()
            } else {
                self@.values.len()
            },
            forall|i: int|
                0 <= i < r@.len() ==> r@[i].0@ == self@.labels[i] && r@[i].1@ == self@.values[i],
    {
        let n = if self.labels.len() < self.values.len() {
            self.labels.len()
        } else {
            self.values.len()
        };
        let mut out: Vec<(&str, &FieldValue)> = Vec::new();
        let mut i: usize = 0;
        while i < n
            invariant
                i <= n,
                n <= self.labels@.len(),
                n <= self.values@.len(),
                out@.len() == i,
                forall|j: int|
                    0 <= j < i ==> out@[j].0@ == self.labels@[j]@ && out@[j].1@
                        == self.values@[j]@,
            decreases n - i,
        {
            out.push((self.labels[i].as_str(), &self.values[i]));
            i = i + 1;
        }
        out
    }

    /// Return field labels in definition order.
    pub fn labels(&self) -> (r: &[String])
        ensures
            texts(r@) == self@.labels,
    {
        self.labels.as_slice()
    }

    /// Return field values in definition order.
    pub fn values(&self) -> (r: &[FieldValue])
        ensures
            models(r@) == self@.values,
    {
        self.values.as_slice()
    }

    /// Return the number of fields.
    pub fn len(&self) -> (r: usize)
        ensures
            r == self@.values.len(),
    {
        self.values.len()
    }

    /// Return true if the entry has no fields.
    pub fn is_empty(&self) -> (r: bool)
        ensures
            r == (self@.values.len() == 0),
    {
        self.values.len() == 0
    }
}

/// The (label, value) pairs of an entry, as far as both lists go.
pub open spec fn pairs_of(e: EntryModel) -> Seq<(Seq<char>, ValueModel)> {
    let n = if e.labels.len() < e.values.len() {
        e.labels.len()
    } else {
        e.values.len()
    };
    Seq::new(n, |i: int| (e.labels[i], e.values[i]))
}

/// The entry with the given name, type, timestamp and (label, value) pairs.
pub open spec fn entry_of_pairs(
    name: Seq<char>,
    msg_type: u8,
    timestamp_usec: Option<nat>,
    pairs: Seq<(Seq<char>, ValueModel)>,
) -> EntryModel {
    EntryModel {
        name,
        msg_type,
        timestamp_usec,
        labels: pairs.map_values(|p: (Seq<char>, ValueModel)| p.0),
        values: pairs.map_values(|p: (Seq<char>, ValueModel)| p.1),
    }
}

/// The models of a list of (label, value) pairs.
pub open spec fn pair_models(v: Seq<(String, FieldValue)>) -> Seq<(Seq<char>, ValueModel)> {
    v.map_values(|p: (String, FieldValue)| (p.0@, p.1@))
}

/// Turning an entry into its pairs and back gives the same entry, where it
/// has as many labels as values.
pub proof fn law_pairs_round_trip(e: EntryModel)
    requires
        e.labels.len() == e.values.len(),
    ensures
        entry_of_pairs(e.name, e.msg_type, e.timestamp_usec, pairs_of(e)) == e,
{
    let r = entry_of_pairs(e.name, e.msg_type, e.timestamp_usec, pairs_of(e));
    assert(r.labels =~= e.labels);
    assert(r.values =~= e.values);
}

impl Entry {
    /// The (label, value) pairs of the entry, as owned values, in definition
    /// order: the flat form in which an entry is serialized.
    pub fn to_pairs(&self) -> (r: Vec<(String, FieldValue)>)
        ensures
            pair_models(r@) == pairs_of(self@),
    {
        let n = if self.labels.len() < self.values.len() {
            self.labels.len()
        } else {
            self.values.len()
        };
        let mut out: Vec<(String, FieldValue)> = Vec::new();
        let mut i: usize = 0;
        while i < n
            invariant
                i <= n,
                n <= self.labels@.len(),
                n <= self.values@.len(),
                out@.len() == i,
                forall|j: int|
                    0 <= j < i ==> out@[j].0@ == self.labels@[j]@ && out@[j].1@
                        == self.values@[j]@,
            decreases n - i,
        {
            out.push((self.labels[i].clone(), self.values[i].duplicate()));
            i = i + 1;
        }
        assert(pair_models(out@) =~= pairs_of(self@));
        out
    }

    /// An entry rebuilt from its name, type, timestamp and (label, value) pairs.
    pub fn from_pairs(
        name: String,
        msg_type: u8,
        timestamp_usec: Option<u64>,
        fields: Vec<(String, FieldValue)>,
    ) -> (r: Entry)
        ensures
            r@ == entry_of_pairs(name@, msg_type, time_model(timestamp_usec), pair_models(fields@)),
    {
        let mut labels: Vec<String> = Vec::new();
        let mut values: Vec<FieldValue> = Vec::new();
        let mut i: usize = 0;
        while i < fields.len()
            invariant
                i <= fields@.len(),
                labels@.len() == i,
                values@.len() == i,
                forall|j: int|
                    0 <= j < i ==> labels@[j]@ == fields@[j].0@ && values@[j]@ == fields@[j].1@,
            decreases fields@.len() - i,
        {
            labels.push(fields[i].0.clone());
            values.push(fields[i].1.duplicate());
            i = i + 1;
        }
        let r = Entry { name, msg_type, timestamp_usec, labels, values };
        assert(r@.labels =~= pair_models(fields@).map_values(|p: (Seq<char>, ValueModel)| p.0));
        assert(r@.values =~= pair_models(fields@).map_values(|p: (Seq<char>, ValueModel)| p.1));
        r
    }
}

/// The position found for a label is that of the first label equal to it,
/// and none is found exactly when no label equals it.
pub proof fn lemma_position_in(labels: Seq<Seq<char>>, l: Seq<char>)
    ensures
        match position_in(labels, l) {
            Some(i) => i < labels.len() && labels[i as int] == l && forall|j: int|
                0 <= j < i ==> labels[j] != l,
            None => forall|j: int| 0 <= j < labels.len() ==> labels[j] != l,
        },
    decreases labels.len(),
{
    if labels.len() > 0 && labels[0] != l {
        let rest = labels.drop_first();
        lemma_position_in(rest, l);
        assert forall|j: int| 1 <= j < labels.len() implies labels[j] == rest[j - 1] by {}
    }
}

/// Looking a field up matches equal labels only: a value is found exactly
/// where some label equals the name, it is the value at the first such
/// label, and no label before it equals the name; nothing is found where no
/// label with a value equals the name.
pub proof fn law_lookup_matches_equal_labels(e: EntryModel, field: Seq<char>)
    ensures
        lookup(e, field) matches Some(v) ==> exists|i: int|
            0 <= i < e.labels.len() && i < e.values.len() && #[trigger] e.labels[i] == field
                && e.values[i] == v && forall|j: int| 0 <= j < i ==> e.labels[j] != field,
        lookup(e, field) is None ==> forall|i: int|
            0 <= i < e.labels.len() && i < e.values.len() ==> #[trigger] e.labels[i] != field,
{
    lemma_position_in(e.labels, field);
    if let Some(i) = position_in(e.labels, field) {
        if i < e.values.len() {
            assert(e.labels[i as int] == field);
        } else {
            assert forall|k: int|
                0 <= k < e.labels.len() && k < e.values.len() implies #[trigger] e.labels[k]
                != field by {
                assert(k < i);
            }
        }
    }
}

} // verus!
