//! An estimate of the bytes that a series takes up.
//!
//! The estimate counts the series itself, every chunk with its events, every
//! entry of the table with its label pairs, and the text of the names and
//! labels. Text that occurs more than once in the table is counted once.

use vstd::prelude::*;
use vstd::layout::size_of;
use vstd::utf8::encode_utf8;
use crate::chunk::{clip, Chunk, ChunkView};
use crate::event::{Entry, Event};
use crate::key::{same_text, KeySpec, LabelPair, MetricKey, PairSpec};
use crate::label_set::{EntrySpec, LabelEntry};
use crate::procession::{Procession, ProcessionView};
use crate::timestamp::Timestamp;

verus! {

/// The bytes that `text` adds to the count after the strings of `seen`: its
/// length in UTF-8, and nothing where `seen` holds it already.
pub open spec fn string_cost(seen: Seq<Seq<char>>, text: Seq<char>) -> nat {
    if seen.contains(text) {
        0
    } else {
        encode_utf8(text).len()
    }
}

/// The bytes of the strings of `strings`, each different string counted once.
pub open spec fn distinct_bytes(strings: Seq<Seq<char>>) -> nat
    decreases strings.len(),
{
    if strings.len() == 0 {
        0
    } else {
        distinct_bytes(strings.drop_last()) + string_cost(strings.drop_last(), strings.last())
    }
}

/// The strings of a list of label pairs: of each pair the name, then the
/// value.
pub open spec fn label_strings(labels: Seq<PairSpec>) -> Seq<Seq<char>>
    decreases labels.len(),
{
    if labels.len() == 0 {
        Seq::empty()
    } else {
        label_strings(labels.drop_last()).push(labels.last().0).push(labels.last().1)
    }
}

/// The strings of a key: its name, then those of its labels.
pub open spec fn key_strings(key: KeySpec) -> Seq<Seq<char>> {
    seq![key.name] + label_strings(key.labels)
}

/// The strings of all keys of a table, entry after entry.
pub open spec fn table_strings(table: Seq<EntrySpec>) -> Seq<Seq<char>>
    decreases table.len(),
{
    if table.len() == 0 {
        Seq::empty()
    } else {
        table_strings(table.drop_last()) + key_strings(table.last().key)
    }
}

/// The bytes of the entries of a table and of their lists of label pairs,
/// without the text.
pub open spec fn table_fixed_bytes(table: Seq<EntrySpec>) -> nat
    decreases table.len(),
{
    if table.len() == 0 {
        0
    } else {
        table_fixed_bytes(table.drop_last()) + size_of::<LabelEntry>()
            + table.last().key.labels.len() * size_of::<LabelPair>()
    }
}

/// The bytes of a list of chunks.
pub open spec fn chunks_memory(chunks: Seq<ChunkView>) -> nat
    decreases chunks.len(),
{
    if chunks.len() == 0 {
        0
    } else {
        chunks_memory(chunks.drop_last()) + chunks.last().memory_size()
    }
}

impl ProcessionView {
    /// The estimate of the bytes that the series takes up.
    pub open spec fn memory_size(self) -> nat {
        size_of::<Procession>() + table_fixed_bytes(self.labels) + distinct_bytes(
            table_strings(self.labels),
        ) + chunks_memory(self.chunks)
    }
}

/// More strings never make the count smaller.
pub proof fn lemma_distinct_bytes_grow(first: Seq<Seq<char>>, more: Seq<Seq<char>>)
    ensures
        distinct_bytes(first + more) >= distinct_bytes(first),
    decreases more.len(),
{
    if more.len() == 0 {
        assert(first + more =~= first);
    } else {
        assert((first + more).drop_last() =~= first + more.drop_last());
        lemma_distinct_bytes_grow(first, more.drop_last());
    }
}

/// The estimate grows with every entry appended: by the bytes of one event,
/// and by those of a chunk where the entry starts a new one.
pub proof fn lemma_insert_memory(series: ProcessionView, entry: Entry, label: u16, now: Timestamp)
    ensures
        series.insert_at(entry, label, now).memory_size() == series.memory_size() + size_of::<
            Event,
        >() + (if series.rolls_over(now) {
            size_of::<Chunk>()
        } else {
            0
        }),
        series.insert_at(entry, label, now).memory_size() >= series.memory_size(),
{
    let ready = series.chunks_for(now);
    let after = series.insert_at(entry, label, now);
    let last = ready.last();
    if series.rolls_over(now) {
        assert(ready.drop_last() =~= series.chunks);
    }
    assert(after.chunks.drop_last() =~= ready.drop_last());
    assert((last.events.len() + 1) * size_of::<Event>() == last.events.len() * size_of::<Event>()
        + size_of::<Event>()) by (nonlinear_arith);
}

/// The estimate never shrinks when a key is interned.
pub proof fn lemma_label_memory(series: ProcessionView, key: KeySpec)
    ensures
        series.ensure_label(key).memory_size() >= series.memory_size(),
{
    let after = series.ensure_label(key);
    if after.labels != series.labels {
        assert(after.labels.drop_last() =~= series.labels);
        lemma_distinct_bytes_grow(table_strings(series.labels), key_strings(key));
    }
}

/// What a list of borrowed strings holds.
pub open spec fn strs_view(strings: Seq<&str>) -> Seq<Seq<char>> {
    Seq::new(strings.len(), |i: int| strings[i]@)
}

/// Adds `text` to the strings seen, and returns the bytes that it adds to the
/// count.
fn note<'a>(seen: &mut Vec<&'a str>, text: &'a str) -> (r: usize)
    ensures
        strs_view(final(seen)@) == strs_view(old(seen)@).push(text@),
        r == string_cost(strs_view(old(seen)@), text@),
{
    let mut known: bool = false;
    let mut i: usize = 0;
    while i < seen.len() && !known
        invariant
            i <= seen.len(),
            seen == old(seen),
            known ==> strs_view(seen@).contains(text@),
            !known ==> forall|j: int| 0 <= j < i ==> strs_view(seen@)[j] != text@,
        decreases seen.len() - i,
    {
        if same_text(seen[i], text) {
            assert(strs_view(seen@)[i as int] == text@);
            known = true;
        }
        i += 1;
    }
    let bytes: usize = if known {
        0
    } else {
        text.as_bytes().len()
    };
    seen.push(text);
    assert(strs_view(seen@) =~= strs_view(old(seen)@).push(text@));
    bytes
}

/// The product of `a` and `b`, as far as a `usize` can hold it.
fn clipped_product(a: usize, b: usize) -> (r: usize)
    ensures
        r == clip((a * b) as nat),
{
    assert(a * b >= 0) by (nonlinear_arith)
        requires
            a >= 0,
            b >= 0,
    ;
    match a.checked_mul(b) {
        Some(product) => product,
        None => usize::MAX,
    }
}

/// Counts the strings of `key` that are not among those seen, and adds them
/// to the strings seen.
fn key_text_bytes<'a>(seen: &mut Vec<&'a str>, key: &'a MetricKey) -> (r: usize)
    ensures
        strs_view(final(seen)@) == strs_view(old(seen)@) + key_strings(key@),
        r == clip(
            (distinct_bytes(strs_view(old(seen)@) + key_strings(key@)) - distinct_bytes(
                strs_view(old(seen)@),
            )) as nat,
        ),
        distinct_bytes(strs_view(old(seen)@) + key_strings(key@)) >= distinct_bytes(
            strs_view(old(seen)@),
        ),
{
    let ghost base = strs_view(seen@);
    let ghost mut added: nat = 0;
    let first: usize = note(seen, key.name.as_str());
    let mut total: usize = first;
    proof {
        added = first as nat;
        assert(base.push(key@.name).drop_last() =~= base);
        assert(label_strings(key@.labels.take(0)) =~= Seq::empty());
        assert(strs_view(seen@) =~= base + seq![key@.name] + label_strings(key@.labels.take(0)));
    }
    let mut j: usize = 0;
    while j < key.labels.len()
        invariant
            j <= key.labels.len(),
            strs_view(seen@) == base + seq![key@.name] + label_strings(
                key@.labels.take(j as int),
            ),
            distinct_bytes(strs_view(seen@)) == distinct_bytes(base) + added,
            total == clip(added),
        decreases key.labels.len() - j,
    {
        let ghost before = strs_view(seen@);
        let ghost pair = key@.labels[j as int];
        assert(pair == (key.labels@[j as int].0@, key.labels@[j as int].1@));
        let name_bytes: usize = note(seen, key.labels[j].0.as_str());
        let ghost between = strs_view(seen@);
        let value_bytes: usize = note(seen, key.labels[j].1.as_str());
        total = total.saturating_add(name_bytes).saturating_add(value_bytes);
        proof {
            assert(between.drop_last() =~= before);
            assert(between.last() == pair.0);
            assert(distinct_bytes(between) == distinct_bytes(before) + name_bytes);
            assert(strs_view(seen@).drop_last() =~= between);
            assert(strs_view(seen@).last() == pair.1);
            assert(distinct_bytes(strs_view(seen@)) == distinct_bytes(between) + value_bytes);
            added = (added + name_bytes + value_bytes) as nat;
            assert(key@.labels.take(j + 1).drop_last() =~= key@.labels.take(j as int));
            assert(key@.labels.take(j + 1).last() == pair);
            assert(strs_view(seen@) =~= base + seq![key@.name] + label_strings(
                key@.labels.take(j + 1),
            ));
        }
        j += 1;
    }
    proof {
        assert(key@.labels.take(j as int) =~= key@.labels);
        assert(strs_view(seen@) =~= base + key_strings(key@));
    }
    total
}

impl Procession {
    /// An estimate of the bytes that the series takes up, as far as a `usize`
    /// can count them. Text that several keys share is counted once.
    pub fn memory_size(&self) -> (r: usize)
        ensures
            r == clip(self@.memory_size()),
    {
        let mut seen: Vec<&str> = Vec::new();
        let mut total: usize = core::mem::size_of::<Procession>();
        let ghost mut sum: nat = size_of::<Procession>();
        let ghost table = self@.labels;
        let mut i: usize = 0;
        assert(strs_view(seen@) =~= table_strings(table.take(0)));
        while i < self.labels.len()
            invariant
                i <= self@.labels.len(),
                table == self@.labels,
                strs_view(seen@) == table_strings(table.take(i as int)),
                sum == size_of::<Procession>() + table_fixed_bytes(table.take(i as int))
                    + distinct_bytes(table_strings(table.take(i as int))),
                total == clip(sum),
            decreases self@.labels.len() - i,
        {
            let key = &self.labels.entry(i).key;
            assert(table[i as int].key == key@);
            let pairs: usize = clipped_product(
                key.labels.len(),
                core::mem::size_of::<LabelPair>(),
            );
            let text: usize = key_text_bytes(&mut seen, key);
            total = total.saturating_add(core::mem::size_of::<LabelEntry>()).saturating_add(
                pairs,
            ).saturating_add(text);
            proof {
                assert(table.take(i + 1).drop_last() =~= table.take(i as int));
                assert(table.take(i + 1).last() == table[i as int]);
                assert(key@.labels.len() == key.labels.len());
                sum = size_of::<Procession>() + table_fixed_bytes(table.take(i + 1))
                    + distinct_bytes(table_strings(table.take(i + 1)));
            }
            i += 1;
        }
        assert(table.take(i as int) =~= table);
        let ghost chunks = self@.chunks;
        let ghost labels_sum = sum;
        let mut c: usize = 0;
        assert(chunks.take(0) =~= Seq::empty());
        while c < self.chunks.len()
            invariant
                c <= self.chunks.len(),
                chunks == self@.chunks,
                sum == labels_sum + chunks_memory(chunks.take(c as int)),
                total == clip(sum),
            decreases self.chunks.len() - c,
        {
            total = total.saturating_add(self.chunks[c].memory_size());
            proof {
                assert(chunks.take(c + 1).drop_last() =~= chunks.take(c as int));
                assert(chunks.take(c + 1).last() == self.chunks@[c as int]@);
                sum = labels_sum + chunks_memory(chunks.take(c + 1));
            }
            c += 1;
        }
        assert(chunks.take(c as int) =~= chunks);
        total
    }
}

} // verus!
