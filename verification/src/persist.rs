//! The written-out form of the interning table: a list of entries, each with
//! the key's name, its label pairs in order, and the id. Writing the entries
//! out in order, rather than as a keyed map, lets a table that is read back
//! give every key the id that the recorded events refer to.

use vstd::prelude::*;
use crate::chunk::Chunk;
use crate::key::{
    clone_pairs, lemma_same_as_equivalence, pairs_view, KeySpec, LabelPair, MetricKey, PairSpec,
};
use crate::label_set::{
    lemma_index_of, spec_index_of, spec_insert, unique_keys, EntrySpec, LabelSet,
};
use crate::procession::{chunks_view, Procession, ProcessionView};

verus! {

/// One entry of the table as it is written out.
#[derive(Debug)]
pub struct SerKey {
    pub key_name: String,
    pub labels: Vec<LabelPair>,
    pub value: u16,
}

impl View for SerKey {
    type V = EntrySpec;

    open spec fn view(&self) -> EntrySpec {
        EntrySpec {
            key: KeySpec { name: self.key_name@, labels: pairs_view(self.labels@) },
            id: self.value,
        }
    }
}

/// What a list of written-out entries holds.
pub open spec fn entries_view(entries: Seq<SerKey>) -> Seq<EntrySpec> {
    Seq::new(entries.len(), |i: int| entries[i]@)
}

/// The value of one field of a written-out entry, by its shape: a string, a
/// list of pairs of strings, or a 16-bit number.
#[derive(Debug)]
pub enum SerKeyValue {
    KeyName(String),
    Labels(Vec<LabelPair>),
    Value(u16),
}

/// What a field's value holds.
pub enum ValueSpec {
    KeyName(Seq<char>),
    Labels(Seq<PairSpec>),
    Value(u16),
}

impl View for SerKeyValue {
    type V = ValueSpec;

    open spec fn view(&self) -> ValueSpec {
        match self {
            SerKeyValue::KeyName(name) => ValueSpec::KeyName(name@),
            SerKeyValue::Labels(labels) => ValueSpec::Labels(pairs_view(labels@)),
            SerKeyValue::Value(value) => ValueSpec::Value(*value),
        }
    }
}

/// A field of a written-out entry: its name and its value.
pub type Field = (String, SerKeyValue);

/// What a field holds.
pub struct FieldSpec {
    pub name: Seq<char>,
    pub value: ValueSpec,
}

/// What a list of fields holds.
pub open spec fn fields_view(fields: Seq<Field>) -> Seq<FieldSpec> {
    Seq::new(fields.len(), |i: int| FieldSpec { name: fields[i].0@, value: fields[i].1@ })
}

/// The field of an entry that a list of fields lacks.
#[derive(Debug, Clone, Copy, PartialEq, Eq, Structural)]
pub enum MissingField {
    KeyName,
    Labels,
    Value,
}

/// The parts of an entry found so far among its fields.
pub struct Picked {
    pub key_name: Option<Seq<char>>,
    pub labels: Option<Seq<PairSpec>>,
    pub value: Option<u16>,
}

impl Picked {
    /// Nothing found yet.
    pub open spec fn none() -> Picked {
        Picked { key_name: None, labels: None, value: None }
    }

    /// Whether all three parts have been found.
    pub open spec fn complete(self) -> bool {
        self.key_name is Some && self.labels is Some && self.value is Some
    }

    /// The parts after `field` has been read. A field counts where its name
    /// is `key_name`, `labels` or `value` and its value has the shape that
    /// goes with that name; it then replaces what an earlier field of that
    /// name gave. Any other field is passed over.
    pub open spec fn take(self, field: FieldSpec) -> Picked {
        match field.value {
            ValueSpec::KeyName(name) => if field.name == "key_name"@ {
                Picked { key_name: Some(name), ..self }
            } else {
                self
            },
            ValueSpec::Labels(labels) => if field.name == "labels"@ {
                Picked { labels: Some(labels), ..self }
            } else {
                self
            },
            ValueSpec::Value(value) => if field.name == "value"@ {
                Picked { value: Some(value), ..self }
            } else {
                self
            },
        }
    }

    /// The entry that the parts make, or the first part that is missing, in
    /// the order name, labels, id.
    pub open spec fn finish(self) -> Result<EntrySpec, MissingField> {
        match (self.key_name, self.labels, self.value) {
            (None, _, _) => Err(MissingField::KeyName),
            (Some(_), None, _) => Err(MissingField::Labels),
            (Some(_), Some(_), None) => Err(MissingField::Value),
            (Some(name), Some(labels), Some(value)) => Ok(
                EntrySpec { key: KeySpec { name, labels }, id: value },
            ),
        }
    }
}

/// The parts found among the first `n` fields. Reading stops at the field
/// that completes the entry: what follows it is not looked at.
pub open spec fn spec_scan(fields: Seq<FieldSpec>, n: nat) -> Picked
    decreases n,
{
    if n == 0 {
        Picked::none()
    } else {
        let before = spec_scan(fields, (n - 1) as nat);
        if before.complete() {
            before
        } else {
            before.take(fields[n - 1])
        }
    }
}

/// The entry that a list of fields gives, or the part that it lacks.
pub open spec fn spec_from_fields(fields: Seq<FieldSpec>) -> Result<EntrySpec, MissingField> {
    spec_scan(fields, fields.len()).finish()
}

/// Once the parts are complete, further fields change nothing.
pub proof fn lemma_scan_stops(fields: Seq<FieldSpec>, n: nat, m: nat)
    requires
        n <= m,
        spec_scan(fields, n).complete(),
    ensures
        spec_scan(fields, m) == spec_scan(fields, n),
    decreases m,
{
    if n < m {
        lemma_scan_stops(fields, n, (m - 1) as nat);
    }
}

impl SerKey {
    /// Puts an entry together from the fields of its written-out form.
    ///
    /// The fields are read in order until a name, the labels and an id have
    /// all been found. The entry is returned where all three were found, and
    /// otherwise the first of them that is missing.
    pub fn from_fields(fields: &[Field]) -> (r: Result<SerKey, MissingField>)
        ensures
            match r {
                Ok(entry) => spec_from_fields(fields_view(fields@)) == Ok::<
                    EntrySpec,
                    MissingField,
                >(entry@),
                Err(missing) => spec_from_fields(fields_view(fields@)) == Err::<
                    EntrySpec,
                    MissingField,
                >(missing),
            },
    {
        let name_field: String = "key_name".to_owned();
        let labels_field: String = "labels".to_owned();
        let value_field: String = "value".to_owned();
        let mut key_name: Option<String> = None;
        let mut labels: Option<Vec<LabelPair>> = None;
        let mut value: Option<u16> = None;
        let mut done: bool = false;
        let mut i: usize = 0;
        let ghost all = fields_view(fields@);
        while i < fields.len() && !done
            invariant
                i <= fields.len(),
                all == fields_view(fields@),
                name_field@ == "key_name"@,
                labels_field@ == "labels"@,
                value_field@ == "value"@,
                spec_scan(all, i as nat) == (Picked {
                    key_name: match key_name {
                        Some(s) => Some(s@),
                        None => None,
                    },
                    labels: match labels {
                        Some(l) => Some(pairs_view(l@)),
                        None => None,
                    },
                    value,
                }),
                done == spec_scan(all, i as nat).complete(),
            decreases fields.len() - i,
        {
            assert(all[i as int] == (FieldSpec {
                name: fields@[i as int].0@,
                value: fields@[i as int].1@,
            }));
            match &fields[i].1 {
                SerKeyValue::KeyName(name) => {
                    if fields[i].0 == name_field {
                        key_name = Some(name.clone());
                    }
                },
                SerKeyValue::Labels(pairs) => {
                    if fields[i].0 == labels_field {
                        labels = Some(clone_pairs(pairs.as_slice()));
                    }
                },
                SerKeyValue::Value(id) => {
                    if fields[i].0 == value_field {
                        value = Some(*id);
                    }
                },
            }
            i += 1;
            done = key_name.is_some() && labels.is_some() && value.is_some();
        }
        proof {
            if done {
                lemma_scan_stops(all, i as nat, all.len());
            }
        }
        match key_name {
            None => Err(MissingField::KeyName),
            Some(key_name) => match labels {
                None => Err(MissingField::Labels),
                Some(labels) => match value {
                    None => Err(MissingField::Value),
                    Some(value) => Ok(SerKey { key_name, labels, value }),
                },
            },
        }
    }
}

/// The table that a list of written-out entries gives: the entries are put
/// into an empty table one after another.
pub open spec fn spec_from_entries(entries: Seq<EntrySpec>) -> Seq<EntrySpec>
    decreases entries.len(),
{
    if entries.len() == 0 {
        Seq::empty()
    } else {
        spec_insert(spec_from_entries(entries.drop_last()), entries.last())
    }
}

/// A table in which no metric has two entries is read back as it was
/// written out: the same keys under the same ids, in the same order.
pub proof fn lemma_round_trip(table: Seq<EntrySpec>)
    requires
        unique_keys(table),
    ensures
        spec_from_entries(table) == table,
    decreases table.len(),
{
    if table.len() > 0 {
        let rest = table.drop_last();
        assert forall|i: int, j: int| 0 <= i < j < rest.len() implies !(
        #[trigger] rest[i]).key.same_as((#[trigger] rest[j]).key) by {
            assert(rest[i] == table[i] && rest[j] == table[j]);
        }
        lemma_round_trip(rest);
        lemma_index_of(rest, table.last().key);
        if let Some(index) = spec_index_of(rest, table.last().key) {
            assert(rest[index] == table[index]);
            assert(!table[index].key.same_as(table[table.len() - 1].key));
            lemma_same_as_equivalence(
                table[table.len() - 1].key,
                table[index].key,
                table[index].key,
            );
        }
        assert(rest.push(table.last()) =~= table);
    } else {
        assert(table =~= Seq::empty());
    }
}

impl LabelSet {
    /// The entries of the table in their written-out form, oldest first.
    ///
    /// Reading the entries back gives the table as it is: the same keys
    /// under the same ids, in the same order.
    pub fn to_entries(&self) -> (r: Vec<SerKey>)
        ensures
            entries_view(r@) == self@,
            spec_from_entries(entries_view(r@)) == self@,
    {
        let mut entries: Vec<SerKey> = Vec::new();
        let mut i: usize = 0;
        while i < self.len()
            invariant
                i <= self@.len(),
                entries.len() == i,
                forall|j: int| 0 <= j < i ==> (#[trigger] entries@[j])@ == self@[j],
            decreases self@.len() - i,
        {
            let entry = self.entry(i);
            entries.push(
                SerKey {
                    key_name: entry.key.name.clone(),
                    labels: clone_pairs(entry.key.labels.as_slice()),
                    value: entry.id,
                },
            );
            i += 1;
        }
        assert(entries_view(entries@) =~= self@);
        proof {
            lemma_round_trip(self@);
        }
        entries
    }

    /// The table that written-out entries give. Where two entries name the
    /// same metric, the metric keeps the place of the first and has the id
    /// of the second.
    pub fn from_entries(entries: &[SerKey]) -> (r: LabelSet)
        ensures
            r@ == spec_from_entries(entries_view(entries@)),
    {
        let mut table = LabelSet::default();
        let mut i: usize = 0;
        let ghost all = entries_view(entries@);
        assert(all.take(0) =~= Seq::empty());
        while i < entries.len()
            invariant
                i <= entries.len(),
                all == entries_view(entries@),
                table@ == spec_from_entries(all.take(i as int)),
            decreases entries.len() - i,
        {
            let entry = &entries[i];
            let key = MetricKey {
                name: entry.key_name.clone(),
                labels: clone_pairs(entry.labels.as_slice()),
            };
            assert(key@ == all[i as int].key);
            table.insert(key, entry.value);
            assert(all.take(i + 1).drop_last() =~= all.take(i as int));
            assert(all.take(i + 1).last() == all[i as int]);
            i += 1;
        }
        assert(all.take(i as int) =~= all);
        table
    }
}

/// A series as it is written out: its chunks, and the entries of its table
/// in their order.
#[derive(Debug)]
pub struct Persisted {
    pub chunks: Vec<Chunk>,
    pub labels: Vec<SerKey>,
}

/// The series that the written-out form `written` gives when it is read.
pub open spec fn spec_read(written: Persisted) -> ProcessionView {
    ProcessionView {
        chunks: chunks_view(written.chunks@),
        labels: spec_from_entries(entries_view(written.labels@)),
    }
}

impl Procession {
    /// The series in its written-out form. Reading the form gives the series
    /// as it is: the same chunks, and the same keys under the same ids.
    pub fn to_persisted(&self) -> (r: Persisted)
        ensures
            chunks_view(r.chunks@) == self@.chunks,
            entries_view(r.labels@) == self@.labels,
            spec_read(r) == self@,
    {
        let mut chunks: Vec<Chunk> = Vec::new();
        let mut i: usize = 0;
        while i < self.chunks.len()
            invariant
                i <= self.chunks.len(),
                chunks.len() == i,
                forall|j: int| 0 <= j < i ==> (#[trigger] chunks@[j])@ == self.chunks@[j]@,
            decreases self.chunks.len() - i,
        {
            chunks.push(self.chunks[i].clone());
            i += 1;
        }
        assert(chunks_view(chunks@) =~= self@.chunks);
        Persisted { chunks, labels: self.labels.to_entries() }
    }

    /// The series that a written-out form gives.
    pub fn from_persisted(written: &Persisted) -> (r: Procession)
        ensures
            r@ == spec_read(*written),
    {
        let mut chunks: Vec<Chunk> = Vec::new();
        let mut i: usize = 0;
        while i < written.chunks.len()
            invariant
                i <= written.chunks.len(),
                chunks.len() == i,
                forall|j: int| 0 <= j < i ==> (#[trigger] chunks@[j])@ == written.chunks@[j]@,
            decreases written.chunks.len() - i,
        {
            chunks.push(written.chunks[i].clone());
            i += 1;
        }
        assert(chunks_view(chunks@) =~= chunks_view(written.chunks@));
        Procession { chunks, labels: LabelSet::from_entries(written.labels.as_slice()) }
    }
}

} // verus!
