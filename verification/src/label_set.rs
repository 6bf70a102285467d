//! The interning table: each metric key is given a dense 16-bit id, in the
//! order in which the keys are first seen.

use vstd::prelude::*;
use crate::key::{KeySpec, MetricKey};

verus! {

/// The id that every key shares once the 16-bit ids have run out.
pub const SENTINEL_ID: u16 = 65535;

/// A key of the table with the id that stands for it.
#[derive(Debug)]
pub struct LabelEntry {
    pub key: MetricKey,
    pub id: u16,
}

/// What an entry holds.
pub struct EntrySpec {
    pub key: KeySpec,
    pub id: u16,
}

impl View for LabelEntry {
    type V = EntrySpec;

    open spec fn view(&self) -> EntrySpec {
        EntrySpec { key: self.key@, id: self.id }
    }
}

/// The number of buckets that the entries are sorted into by their names.
const BUCKETS: usize = 1024;

/// The table of keys and ids, oldest entry first.
///
/// Beside the entries the table keeps an index for looking a key up: each
/// bucket lists, in rising order, the places of the entries whose names fall
/// into it. A table without entries may do without buckets.
#[derive(Debug)]
pub struct LabelSet {
    entries: Vec<LabelEntry>,
    buckets: Vec<Vec<usize>>,
}

impl View for LabelSet {
    type V = Seq<EntrySpec>;

    closed spec fn view(&self) -> Seq<EntrySpec> {
        entries_view(self.entries@)
    }
}

/// What a list of entries holds.
pub open spec fn entries_view(entries: Seq<LabelEntry>) -> Seq<EntrySpec> {
    Seq::new(entries.len(), |i: int| entries[i]@)
}

/// The number that the bytes of a name are folded into.
spec fn spec_hash(bytes: Seq<u8>) -> u64
    decreases bytes.len(),
{
    if bytes.len() == 0 {
        0
    } else {
        ((spec_hash(bytes.drop_last()) * 31 + bytes.last()) % 0x1_0000_0000_0000_0000) as u64
    }
}

/// The bucket that a name falls into.
spec fn spec_bucket(name: Seq<char>) -> int {
    (spec_hash(vstd::utf8::encode_utf8(name)) % 1024) as int
}

/// The bucket that `name` falls into.
fn bucket_of(name: &str) -> (r: usize)
    ensures
        r == spec_bucket(name@),
        r < BUCKETS,
{
    let bytes: &[u8] = name.as_bytes();
    let mut hash: u64 = 0;
    let mut i: usize = 0;
    assert(bytes@.take(0) =~= Seq::empty());
    while i < bytes.len()
        invariant
            i <= bytes.len(),
            hash == spec_hash(bytes@.take(i as int)),
        decreases bytes.len() - i,
    {
        let wide: u128 = (hash as u128) * 31 + (bytes[i] as u128);
        assert(bytes@.take(i + 1).drop_last() =~= bytes@.take(i as int));
        hash = (wide % 0x1_0000_0000_0000_0000) as u64;
        i += 1;
    }
    assert(bytes@.take(i as int) =~= bytes@);
    (hash % 1024) as usize
}

/// Where `table` holds `key`: the index of the oldest entry whose key names
/// the same metric.
pub open spec fn spec_index_of(table: Seq<EntrySpec>, key: KeySpec) -> Option<int>
    decreases table.len(),
{
    if table.len() == 0 {
        None
    } else {
        match spec_index_of(table.drop_last(), key) {
            Some(index) => Some(index),
            None => if table.last().key.same_as(key) {
                Some(table.len() - 1)
            } else {
                None
            },
        }
    }
}

/// The id under which `table` holds `key`.
pub open spec fn spec_get(table: Seq<EntrySpec>, key: KeySpec) -> Option<u16> {
    match spec_index_of(table, key) {
        Some(index) => Some(table[index].id),
        None => None,
    }
}

/// The id that the next new key of `table` is given: the number of entries,
/// and the sentinel once that number no longer fits in 16 bits.
pub open spec fn spec_next_id(table: Seq<EntrySpec>) -> u16 {
    if table.len() <= SENTINEL_ID {
        table.len() as u16
    } else {
        SENTINEL_ID
    }
}

/// The id of `key` once `table` holds it.
pub open spec fn spec_ensure_id(table: Seq<EntrySpec>, key: KeySpec) -> u16 {
    match spec_get(table, key) {
        Some(id) => id,
        None => spec_next_id(table),
    }
}

/// The table once it holds `key`: unchanged where it held the key already,
/// and with one more entry at its end where it did not.
pub open spec fn spec_ensure(table: Seq<EntrySpec>, key: KeySpec) -> Seq<EntrySpec> {
    match spec_get(table, key) {
        Some(_) => table,
        None => table.push(EntrySpec { key, id: spec_next_id(table) }),
    }
}

/// The key that `id` stands for in `table`: that of the oldest entry with
/// this id.
pub open spec fn spec_key_of(table: Seq<EntrySpec>, id: u16) -> Option<KeySpec>
    decreases table.len(),
{
    if table.len() == 0 {
        None
    } else {
        match spec_key_of(table.drop_last(), id) {
            Some(key) => Some(key),
            None => if table.last().id == id {
                Some(table.last().key)
            } else {
                None
            },
        }
    }
}

/// The table after `entry` has been put into it: a key that the table holds
/// keeps its place and is given the id of `entry`, and a key that it does
/// not hold is appended.
pub open spec fn spec_insert(table: Seq<EntrySpec>, entry: EntrySpec) -> Seq<EntrySpec> {
    match spec_index_of(table, entry.key) {
        Some(index) => table.update(index, EntrySpec { key: table[index].key, id: entry.id }),
        None => table.push(entry),
    }
}

/// Whether no metric has two entries in `table`.
pub open spec fn unique_keys(table: Seq<EntrySpec>) -> bool {
    forall|i: int, j: int|
        0 <= i < j < table.len() ==> !(#[trigger] table[i]).key.same_as((#[trigger] table[j]).key)
}

/// The id that an entry at `index` has in a table filled in order: the
/// index, and the sentinel from index 65535 on.
pub open spec fn spec_id_at(index: int) -> int {
    if index <= SENTINEL_ID {
        index
    } else {
        SENTINEL_ID as int
    }
}

/// Whether each entry of `table` has the id that its place gives it.
pub open spec fn dense_ids(table: Seq<EntrySpec>) -> bool {
    forall|i: int| 0 <= i < table.len() ==> (#[trigger] table[i]).id == spec_id_at(i)
}

/// The table after the keys of `keys` have been interned one after another.
pub open spec fn spec_intern_all(table: Seq<EntrySpec>, keys: Seq<KeySpec>) -> Seq<EntrySpec>
    decreases keys.len(),
{
    if keys.len() == 0 {
        table
    } else {
        spec_ensure(spec_intern_all(table, keys.drop_last()), keys.last())
    }
}

/// A table in which no metric has two entries stays so when a key that it
/// does not hold is appended.
pub proof fn lemma_push_unique(table: Seq<EntrySpec>, entry: EntrySpec)
    requires
        unique_keys(table),
        spec_index_of(table, entry.key) is None,
    ensures
        unique_keys(table.push(entry)),
{
    let after = table.push(entry);
    lemma_index_of(table, entry.key);
    assert forall|i: int, j: int| 0 <= i < j < after.len() implies !(
    #[trigger] after[i]).key.same_as((#[trigger] after[j]).key) by {
        if j < table.len() {
            assert(after[i] == table[i] && after[j] == table[j]);
        } else {
            assert(after[i] == table[i]);
        }
    }
}

/// What `spec_index_of` finds: the first entry that names the metric of
/// `key`, and nothing where no entry does.
pub proof fn lemma_index_of(table: Seq<EntrySpec>, key: KeySpec)
    ensures
        match spec_index_of(table, key) {
            Some(index) => {
                &&& 0 <= index < table.len()
                &&& table[index].key.same_as(key)
                &&& forall|j: int| 0 <= j < index ==> !(#[trigger] table[j]).key.same_as(key)
            },
            None => forall|j: int| 0 <= j < table.len() ==> !(#[trigger] table[j]).key.same_as(key),
        },
    decreases table.len(),
{
    if table.len() > 0 {
        let rest = table.drop_last();
        lemma_index_of(rest, key);
        match spec_index_of(rest, key) {
            Some(index) => {
                assert(rest[index] == table[index]);
                assert forall|j: int| 0 <= j < index implies !(#[trigger] table[j]).key.same_as(
                    key,
                ) by {
                    assert(rest[j] == table[j]);
                }
            },
            None => {
                assert forall|j: int| 0 <= j < table.len() - 1 implies !(
                #[trigger] table[j]).key.same_as(key) by {
                    assert(rest[j] == table[j]);
                }
            },
        }
    }
}

/// A key that is found at `index` and nowhere before is held there.
pub proof fn lemma_index_first(table: Seq<EntrySpec>, key: KeySpec, index: int)
    requires
        0 <= index < table.len(),
        table[index].key.same_as(key),
        forall|j: int| 0 <= j < index ==> !(#[trigger] table[j]).key.same_as(key),
    ensures
        spec_index_of(table, key) == Some(index),
        spec_get(table, key) == Some(table[index].id),
{
    lemma_index_of(table, key);
}

/// A key that no entry names is not held.
pub proof fn lemma_index_absent(table: Seq<EntrySpec>, key: KeySpec)
    requires
        forall|j: int| 0 <= j < table.len() ==> !(#[trigger] table[j]).key.same_as(key),
    ensures
        spec_index_of(table, key) is None,
        spec_get(table, key) is None,
{
    lemma_index_of(table, key);
}

/// Keys that name the same metric are held at the same place.
pub proof fn lemma_get_same_key(table: Seq<EntrySpec>, a: KeySpec, b: KeySpec)
    requires
        a.same_as(b),
    ensures
        spec_index_of(table, a) == spec_index_of(table, b),
        spec_get(table, a) == spec_get(table, b),
    decreases table.len(),
{
    if table.len() > 0 {
        lemma_get_same_key(table.drop_last(), a, b);
    }
}

/// Interning a key a second time, with its labels in whatever order, gives
/// the id that the first time gave and adds no entry.
pub proof fn lemma_intern_same_key(table: Seq<EntrySpec>, a: KeySpec, b: KeySpec)
    requires
        a.same_as(b),
    ensures
        spec_ensure_id(spec_ensure(table, a), b) == spec_ensure_id(table, a),
        spec_ensure(spec_ensure(table, a), b) == spec_ensure(table, a),
{
    lemma_get_same_key(table, a, b);
    let first = spec_ensure(table, a);
    if spec_get(table, a) is None {
        assert(first.drop_last() =~= table);
    }
}

/// Interning a key removes and changes no entry and adds at most one, after
/// which the table holds the key under the id returned. A table in which no
/// metric has two entries stays so, and so does one whose ids are dense.
pub proof fn lemma_ensure_preserves(table: Seq<EntrySpec>, key: KeySpec)
    ensures
        table.len() <= spec_ensure(table, key).len() <= table.len() + 1,
        forall|i: int| 0 <= i < table.len() ==> spec_ensure(table, key)[i] == table[i],
        spec_get(spec_ensure(table, key), key) == Some(spec_ensure_id(table, key)),
        unique_keys(table) ==> unique_keys(spec_ensure(table, key)),
        dense_ids(table) ==> dense_ids(spec_ensure(table, key)),
{
    let after = spec_ensure(table, key);
    lemma_index_of(table, key);
    if spec_get(table, key) is None {
        assert(after.drop_last() =~= table);
        if unique_keys(table) {
            assert forall|i: int, j: int| 0 <= i < j < after.len() implies !(
            #[trigger] after[i]).key.same_as((#[trigger] after[j]).key) by {
                if j < table.len() {
                    assert(after[i] == table[i] && after[j] == table[j]);
                } else {
                    assert(after[i] == table[i]);
                }
            }
        }
        if dense_ids(table) {
            assert forall|i: int| 0 <= i < after.len() implies (#[trigger] after[i]).id
                == spec_id_at(i) by {
                if i < table.len() {
                    assert(after[i] == table[i]);
                }
            }
        }
    }
}

/// Keys of which no two name the same metric, interned one after another
/// into an empty table, are given the ids 0, 1, 2 and so on in that order;
/// the key at index 65535 and all that follow it are given 65535. The table
/// then has one entry for each key, in the same order.
pub proof fn lemma_ids_dense(keys: Seq<KeySpec>)
    requires
        forall|i: int, j: int|
            0 <= i < j < keys.len() ==> !(#[trigger] keys[i]).same_as(#[trigger] keys[j]),
    ensures
        spec_intern_all(Seq::empty(), keys).len() == keys.len(),
        forall|i: int|
            0 <= i < keys.len() ==> (#[trigger] spec_intern_all(Seq::empty(), keys)[i])
                == (EntrySpec { key: keys[i], id: spec_id_at(i) as u16 }),
        forall|i: int|
            0 <= i < keys.len() ==> spec_get(
                spec_intern_all(Seq::empty(), keys),
                #[trigger] keys[i],
            ) == Some(spec_id_at(i) as u16),
    decreases keys.len(),
{
    let table = spec_intern_all(Seq::empty(), keys);
    if keys.len() > 0 {
        let front = keys.drop_last();
        let before = spec_intern_all(Seq::empty(), front);
        assert forall|i: int, j: int| 0 <= i < j < front.len() implies !(
        #[trigger] front[i]).same_as(#[trigger] front[j]) by {
            assert(front[i] == keys[i] && front[j] == keys[j]);
        }
        lemma_ids_dense(front);
        let last = keys.last();
        assert forall|j: int| 0 <= j < before.len() implies !(#[trigger] before[j]).key.same_as(
            last,
        ) by {
            assert(before[j].key == front[j]);
            assert(front[j] == keys[j]);
            assert(!keys[j].same_as(keys[keys.len() - 1]));
        }
        lemma_index_absent(before, last);
        assert(table == before.push(EntrySpec { key: last, id: spec_next_id(before) }));
        assert forall|i: int| 0 <= i < keys.len() implies (#[trigger] table[i]) == (EntrySpec {
            key: keys[i],
            id: spec_id_at(i) as u16,
        }) by {
            if i < front.len() {
                assert(table[i] == before[i]);
                assert(front[i] == keys[i]);
            }
        }
        assert forall|i: int| 0 <= i < keys.len() implies spec_get(table, #[trigger] keys[i])
            == Some(spec_id_at(i) as u16) by {
            assert forall|j: int| 0 <= j < i implies !(#[trigger] table[j]).key.same_as(
                keys[i],
            ) by {
                assert(table[j].key == keys[j]);
            }
            assert(table[i].key == keys[i]);
            lemma_index_first(table, keys[i], i);
        }
    }
}

/// An id that is found at `index` and nowhere before stands for the key of
/// that entry.
pub proof fn lemma_key_of_first(table: Seq<EntrySpec>, id: u16, index: int)
    requires
        0 <= index < table.len(),
        table[index].id == id,
        forall|j: int| 0 <= j < index ==> (#[trigger] table[j]).id != id,
    ensures
        spec_key_of(table, id) == Some(table[index].key),
    decreases table.len(),
{
    let rest = table.drop_last();
    if index == table.len() - 1 {
        assert forall|j: int| 0 <= j < rest.len() implies (#[trigger] rest[j]).id != id by {
            assert(rest[j] == table[j]);
        }
        lemma_key_of_absent(rest, id);
    } else {
        assert(rest[index] == table[index]);
        assert forall|j: int| 0 <= j < index implies (#[trigger] rest[j]).id != id by {
            assert(rest[j] == table[j]);
        }
        lemma_key_of_first(rest, id, index);
    }
}

/// An id stands for a key exactly where one of the entries has it.
pub proof fn lemma_key_of_absent(table: Seq<EntrySpec>, id: u16)
    ensures
        spec_key_of(table, id) is None <==> forall|j: int|
            0 <= j < table.len() ==> (#[trigger] table[j]).id != id,
    decreases table.len(),
{
    if table.len() > 0 {
        let rest = table.drop_last();
        lemma_key_of_absent(rest, id);
        if spec_key_of(table, id) is None {
            assert forall|j: int| 0 <= j < table.len() implies (#[trigger] table[j]).id != id by {
                if j < rest.len() {
                    assert(rest[j] == table[j]);
                }
            }
        } else if spec_key_of(rest, id) is None {
            assert(table[table.len() - 1].id == id);
        } else {
            let j = choose|j: int| 0 <= j < rest.len() && (#[trigger] rest[j]).id == id;
            assert(table[j] == rest[j]);
        }
    }
}

impl LabelSet {
    /// Whether no metric has two entries, and the buckets list every entry:
    /// each entry's place stands in the bucket of its name, and each bucket
    /// lists places of the table in rising order.
    #[verifier::type_invariant]
    closed spec fn indexed(self) -> bool {
        &&& unique_keys(entries_view(self.entries@))
        &&& self.buckets@.len() == 0 || self.buckets@.len() == BUCKETS
        &&& forall|i: int|
            0 <= i < self.entries@.len() ==> {
                &&& self.buckets@.len() == BUCKETS
                &&& self.buckets@[spec_bucket(
                    (#[trigger] self.entries@[i]).key.name@,
                )]@.contains(i as usize)
            }
        &&& forall|b: int, x: int, y: int|
            0 <= b < self.buckets@.len() && 0 <= x < y < self.buckets@[b]@.len()
                ==> self.buckets@[b]@[x] < self.buckets@[b]@[y]
        &&& forall|b: int, x: int|
            0 <= b < self.buckets@.len() && 0 <= x < self.buckets@[b]@.len() ==> (
            #[trigger] self.buckets@[b]@[x]) < self.entries@.len()
    }

    /// The number of entries. No metric has two of them.
    pub fn len(&self) -> (r: usize)
        ensures
            r == self@.len(),
            unique_keys(self@),
    {
        proof {
            use_type_invariant(self);
        }
        self.entries.len()
    }

    /// Whether the table has no entry.
    pub fn is_empty(&self) -> (r: bool)
        ensures
            r == (self@.len() == 0),
    {
        self.entries.len() == 0
    }

    /// The entry at `index`, counted from the oldest.
    pub fn entry(&self, index: usize) -> (r: &LabelEntry)
        requires
            index < self@.len(),
        ensures
            r@ == self@[index as int],
    {
        &self.entries[index]
    }

    /// Where the table holds `key`.
    pub fn index_of(&self, key: &MetricKey) -> (r: Option<usize>)
        ensures
            match r {
                Some(index) => spec_index_of(self@, key@) == Some(index as int),
                None => spec_index_of(self@, key@) is None,
            },
    {
        proof {
            use_type_invariant(self);
        }
        if self.buckets.len() == 0 {
            proof {
                lemma_index_absent(self@, key@);
            }
            return None;
        }
        let bucket: &Vec<usize> = &self.buckets[bucket_of(key.name.as_str())];
        let mut x: usize = 0;
        while x < bucket.len()
            invariant
                x <= bucket.len(),
                self.indexed(),
                self.buckets@.len() == BUCKETS,
                *bucket == self.buckets@[spec_bucket(key@.name)],
                forall|y: int|
                    0 <= y < x ==> !self@[(#[trigger] bucket@[y]) as int].key.same_as(key@),
            decreases bucket.len() - x,
        {
            let at: usize = bucket[x];
            if self.entries[at].key == *key {
                proof {
                    assert forall|i: int| 0 <= i < at implies !(#[trigger] self@[i]).key.same_as(
                        key@,
                    ) by {
                        if self@[i].key.same_as(key@) {
                            assert(self.entries@[i].key.name@ == key@.name);
                            let y = choose|y: int|
                                0 <= y < bucket@.len() && bucket@[y] == i as usize;
                            assert(bucket@[y] < bucket@[x as int]);
                            assert(y < x);
                        }
                    }
                    lemma_index_first(self@, key@, at as int);
                }
                return Some(at);
            }
            x += 1;
        }
        let count: usize = self.entries.len();
        proof {
            assert forall|i: int| 0 <= i < count implies !(#[trigger] self@[i]).key.same_as(
                key@,
            ) by {
                if self@[i].key.same_as(key@) {
                    assert(self.entries@[i].key.name@ == key@.name);
                    let y = choose|y: int| 0 <= y < bucket@.len() && bucket@[y] == i as usize;
                    assert(!self@[bucket@[y] as int].key.same_as(key@));
                }
            }
            lemma_index_absent(self@, key@);
        }
        None
    }

    /// The id of `key`, where the table holds it.
    pub fn get(&self, key: &MetricKey) -> (r: Option<u16>)
        ensures
            r == spec_get(self@, key@),
    {
        proof {
            lemma_index_of(self@, key@);
        }
        match self.index_of(key) {
            Some(index) => Some(self.entries[index].id),
            None => None,
        }
    }

    /// Appends an entry for `key`, which the table does not hold, under `id`.
    fn append(&mut self, key: MetricKey, id: u16)
        requires
            spec_index_of(old(self)@, key@) is None,
        ensures
            final(self)@ == old(self)@.push(EntrySpec { key: key@, id }),
    {
        proof {
            use_type_invariant(&*self);
            lemma_index_of(self@, key@);
        }
        let mut taken = LabelSet { entries: Vec::new(), buckets: Vec::new() };
        core::mem::swap(&mut taken, self);
        let LabelSet { mut entries, mut buckets } = taken;
        if buckets.len() == 0 {
            assert(entries@.len() == 0) by {
                if entries@.len() > 0 {
                    assert(entries@[0].key.name@ == entries@[0].key.name@);
                }
            }
            while buckets.len() < BUCKETS
                invariant
                    buckets@.len() <= BUCKETS,
                    forall|b: int|
                        0 <= b < buckets@.len() ==> (#[trigger] buckets@[b])@.len() == 0,
                    entries@.len() == 0,
                decreases BUCKETS - buckets.len(),
            {
                buckets.push(Vec::new());
            }
        }
        let place: usize = entries.len();
        let bucket: usize = bucket_of(key.name.as_str());
        let ghost before = buckets@;
        let ghost listed = entries@;
        buckets[bucket].push(place);
        entries.push(LabelEntry { key, id });
        proof {
            assert forall|i: int| 0 <= i < entries@.len() implies buckets@[spec_bucket(
                (#[trigger] entries@[i]).key.name@,
            )]@.contains(i as usize) by {
                let b = spec_bucket(entries@[i].key.name@);
                if i < place {
                    assert(entries@[i] == listed[i]);
                    let y = choose|y: int|
                        0 <= y < before[b]@.len() && before[b]@[y] == i as usize;
                    assert(buckets@[b]@[y] == i as usize);
                } else {
                    assert(buckets@[b]@[before[b]@.len() as int] == i as usize);
                }
            }
            assert forall|b: int, x: int, y: int|
                0 <= b < buckets@.len() && 0 <= x < y < buckets@[b]@.len() implies buckets@[b]@[x]
                < buckets@[b]@[y] by {
                if b == bucket && y == before[b]@.len() {
                    assert(buckets@[b]@[x] == before[b]@[x]);
                } else if b == bucket {
                    assert(buckets@[b]@[x] == before[b]@[x]);
                    assert(buckets@[b]@[y] == before[b]@[y]);
                }
            }
            assert forall|b: int, x: int|
                0 <= b < buckets@.len() && 0 <= x < buckets@[b]@.len() implies (
            #[trigger] buckets@[b]@[x]) < entries@.len() by {
                if b == bucket && x < before[b]@.len() {
                    assert(buckets@[b]@[x] == before[b]@[x]);
                }
            }
            assert(entries_view(entries@) =~= entries_view(listed).push(
                EntrySpec { key: key@, id },
            ));
            lemma_push_unique(entries_view(listed), EntrySpec { key: key@, id });
        }
        *self = LabelSet { entries, buckets };
    }

    /// Makes sure that the table holds `key`, and returns its id. A key that
    /// the table does not hold yet is appended under the next id: the number
    /// of entries before it, or the sentinel 65535 once 65536 entries exist.
    pub fn ensure_key(&mut self, key: &MetricKey) -> (id: u16)
        ensures
            id == spec_ensure_id(old(self)@, key@),
            final(self)@ == spec_ensure(old(self)@, key@),
    {
        if let Some(id) = self.get(key) {
            return id;
        }
        let n: usize = self.entries.len();
        let id: u16 = if n <= 65535 {
            n as u16
        } else {
            SENTINEL_ID
        };
        let copy = key.clone();
        proof {
            lemma_get_same_key(self@, key@, copy@);
        }
        self.append(copy, id);
        id
    }

    /// Puts `key` into the table under `id`. A key that the table holds
    /// keeps its place and is given the id; one that it does not hold is
    /// appended.
    pub fn insert(&mut self, key: MetricKey, id: u16)
        ensures
            final(self)@ == spec_insert(old(self)@, EntrySpec { key: key@, id }),
    {
        proof {
            use_type_invariant(&*self);
            lemma_index_of(self@, key@);
        }
        match self.index_of(&key) {
            Some(index) => {
                let mut taken = LabelSet { entries: Vec::new(), buckets: Vec::new() };
                core::mem::swap(&mut taken, self);
                let LabelSet { mut entries, buckets } = taken;
                let ghost listed = entries@;
                entries[index].id = id;
                proof {
                    assert forall|i: int| 0 <= i < entries@.len() implies buckets@[spec_bucket(
                        (#[trigger] entries@[i]).key.name@,
                    )]@.contains(i as usize) by {
                        assert(entries@[i].key == listed[i].key);
                    }
                    assert(entries_view(entries@) =~= spec_insert(
                        entries_view(listed),
                        EntrySpec { key: key@, id },
                    ));
                    assert forall|i: int, j: int|
                        0 <= i < j < entries@.len() implies !(#[trigger] entries_view(
                        entries@,
                    )[i]).key.same_as((#[trigger] entries_view(entries@)[j]).key) by {
                        assert(entries_view(entries@)[i].key == entries_view(listed)[i].key);
                        assert(entries_view(entries@)[j].key == entries_view(listed)[j].key);
                    }
                }
                *self = LabelSet { entries, buckets };
            },
            None => {
                self.append(key, id);
            },
        }
    }

    /// Whether the 16-bit ids have run out, so that the next new key is
    /// given the sentinel.
    pub fn is_exhausted(&self) -> (r: bool)
        ensures
            r == (self@.len() > SENTINEL_ID),
    {
        self.entries.len() > 65535
    }

    /// The key that `id` stands for, where the table has an entry with it.
    pub fn key_of(&self, id: u16) -> (r: Option<&MetricKey>)
        ensures
            match r {
                Some(key) => spec_key_of(self@, id) == Some(key@),
                None => spec_key_of(self@, id) is None,
            },
    {
        let mut i: usize = 0;
        while i < self.entries.len()
            invariant
                i <= self.entries.len(),
                forall|j: int| 0 <= j < i ==> (#[trigger] self@[j]).id != id,
            decreases self.entries.len() - i,
        {
            if self.entries[i].id == id {
                proof {
                    lemma_key_of_first(self@, id, i as int);
                }
                return Some(&self.entries[i].key);
            }
            i += 1;
        }
        proof {
            lemma_key_of_absent(self@, id);
        }
        None
    }
}

impl Default for LabelSet {
    /// The table without entries.
    fn default() -> (r: LabelSet)
        ensures
            r@ == Seq::<EntrySpec>::empty(),
    {
        let r = LabelSet { entries: Vec::new(), buckets: Vec::new() };
        assert(r@ =~= Seq::<EntrySpec>::empty());
        r
    }
}

/// Whether two tables hold the same metrics under the same ids, entry by
/// entry.
pub open spec fn same_table(a: Seq<EntrySpec>, b: Seq<EntrySpec>) -> bool {
    &&& a.len() == b.len()
    &&& forall|i: int|
        0 <= i < a.len() ==> (#[trigger] a[i]).key.same_as(b[i].key) && a[i].id == b[i].id
}

impl Clone for LabelEntry {
    fn clone(&self) -> (r: LabelEntry)
        ensures
            r@ == self@,
    {
        LabelEntry { key: self.key.clone(), id: self.id }
    }
}

impl Clone for LabelSet {
    fn clone(&self) -> (r: LabelSet)
        ensures
            r@ == self@,
    {
        let mut copy = LabelSet::default();
        let mut i: usize = 0;
        assert(self@.take(0) =~= Seq::empty());
        while i < self.entries.len()
            invariant
                i <= self.entries.len(),
                copy@ == self@.take(i as int),
            decreases self.entries.len() - i,
        {
            let entry = self.entries[i].clone();
            proof {
                use_type_invariant(self);
                assert forall|j: int| 0 <= j < copy@.len() implies !(
                #[trigger] copy@[j]).key.same_as(entry.key@) by {
                    assert(copy@[j] == self@[j]);
                    assert(!self@[j].key.same_as(self@[i as int].key));
                }
                lemma_index_absent(copy@, entry.key@);
            }
            copy.append(entry.key, entry.id);
            assert(copy@ =~= self@.take(i + 1));
            i += 1;
        }
        assert(self@.take(i as int) =~= self@);
        copy
    }
}

impl PartialEq for LabelSet {
    fn eq(&self, other: &LabelSet) -> (r: bool) {
        if self.entries.len() != other.entries.len() {
            return false;
        }
        let mut i: usize = 0;
        while i < self.entries.len()
            invariant
                i <= self.entries.len(),
                self.entries.len() == other.entries.len(),
                forall|j: int|
                    0 <= j < i ==> (#[trigger] self@[j]).key.same_as(other@[j].key) && self@[j].id
                        == other@[j].id,
            decreases self.entries.len() - i,
        {
            if !(self.entries[i].key == other.entries[i].key) || self.entries[i].id
                != other.entries[i].id {
                assert(!(self@[i as int].key.same_as(other@[i as int].key) && self@[i as int].id
                    == other@[i as int].id));
                return false;
            }
            i += 1;
        }
        true
    }
}

impl vstd::std_specs::cmp::PartialEqSpecImpl for LabelSet {
    open spec fn obeys_eq_spec() -> bool {
        true
    }

    open spec fn eq_spec(&self, other: &LabelSet) -> bool {
        same_table(self@, other@)
    }
}

} // verus!
