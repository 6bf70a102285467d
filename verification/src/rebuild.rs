//! What holds of a series that is built from logical events: it has those
//! events, and building it again from its own walk gives it back.

use vstd::prelude::*;
use crate::event::Entry;
use crate::iter::{chunk_metrics, lemma_insert_appends, spec_resolve, MetricSpec};
use crate::key::{lemma_same_as_equivalence, KeySpec};
use crate::label_set::{
    dense_ids, lemma_ensure_preserves, lemma_get_same_key, lemma_index_of, lemma_key_of_absent,
    lemma_key_of_first, spec_ensure, spec_ensure_id, spec_get, spec_index_of, spec_key_of,
    unique_keys, EntrySpec, SENTINEL_ID,
};
use crate::procession::ProcessionView;
use crate::timestamp::{Timestamp, NANOS_PER_MILLI, WINDOW_NANOS};

verus! {

/// A series built from logical events has one event for each of them, in
/// their order and with their entries.
pub proof fn lemma_from_metrics_entries(metrics: Seq<MetricSpec>)
    ensures
        ProcessionView::from_metrics(metrics).metrics().len() == metrics.len(),
        forall|i: int|
            0 <= i < metrics.len() ==> (#[trigger] ProcessionView::from_metrics(
                metrics,
            ).metrics()[i]).event == metrics[i].event,
    decreases metrics.len(),
{
    if metrics.len() == 0 {
        assert(ProcessionView::empty().metrics() =~= Seq::empty());
    } else {
        let front = metrics.drop_last();
        let last = metrics.last();
        let before = ProcessionView::from_metrics(front);
        let keyed = before.ensure_label(last.key);
        let id = spec_ensure_id(before.labels, last.key);
        lemma_from_metrics_entries(front);
        lemma_label_keeps_entries(before, last.key, 0);
        lemma_insert_appends(keyed, last.event, id, last.when);
        let after = ProcessionView::from_metrics(metrics);
        assert forall|i: int| 0 <= i < metrics.len() implies (#[trigger] after.metrics()[i]).event
            == metrics[i].event by {
            if i < front.len() {
                assert(after.metrics()[i] == keyed.metrics()[i]);
                assert(keyed.metrics()[i].event == before.metrics()[i].event);
                assert(front[i] == metrics[i]);
            }
        }
    }
}

/// Interning a key changes no entry and no instant of the events that a walk
/// gives, nor their number.
pub proof fn lemma_label_keeps_entries(series: ProcessionView, key: KeySpec, chunk_index: int)
    requires
        0 <= chunk_index,
    ensures
        series.ensure_label(key).metrics_from(chunk_index, 0).len() == series.metrics_from(
            chunk_index,
            0,
        ).len(),
        forall|i: int|
            0 <= i < series.metrics_from(chunk_index, 0).len() ==> {
                &&& (#[trigger] series.ensure_label(key).metrics_from(chunk_index, 0)[i]).event
                    == series.metrics_from(chunk_index, 0)[i].event
                &&& series.ensure_label(key).metrics_from(chunk_index, 0)[i].when
                    == series.metrics_from(chunk_index, 0)[i].when
            },
    decreases series.chunks.len() - chunk_index,
{
    if chunk_index < series.chunks.len() {
        lemma_label_keeps_entries(series, key, chunk_index + 1);
    }
}

impl ProcessionView {
    /// Whether every event refers to a key that the table holds.
    pub open spec fn resolvable(self) -> bool {
        forall|c: int, e: int|
            0 <= c < self.chunks.len() && 0 <= e < self.chunks[c].events.len() ==> spec_key_of(
                self.labels,
                (#[trigger] self.chunks[c].events[e]).label,
            ) is Some
    }

    /// Whether every chunk starts early enough for the whole of its window
    /// to be told in nanoseconds.
    pub open spec fn windows_fit(self) -> bool {
        forall|c: int|
            0 <= c < self.chunks.len() ==> (#[trigger] self.chunks[c]).reference_time.nanos
                + WINDOW_NANOS <= i128::MAX
    }
}

/// An id that stands for a key keeps standing for it when the table grows.
pub proof fn lemma_resolve_stable(table: Seq<EntrySpec>, key: KeySpec, id: u16)
    requires
        spec_key_of(table, id) is Some,
    ensures
        spec_key_of(spec_ensure(table, key), id) == spec_key_of(table, id),
        spec_resolve(spec_ensure(table, key), id) == spec_resolve(table, id),
{
    let after = spec_ensure(table, key);
    if after != table {
        assert(after.drop_last() =~= table);
    }
}

/// Where every event refers to a key that the table holds, interning a key
/// changes nothing of what a walk gives.
pub proof fn lemma_label_keeps_metrics(series: ProcessionView, key: KeySpec, chunk_index: int)
    requires
        series.resolvable(),
        0 <= chunk_index,
    ensures
        series.ensure_label(key).metrics_from(chunk_index, 0) == series.metrics_from(
            chunk_index,
            0,
        ),
    decreases series.chunks.len() - chunk_index,
{
    if chunk_index < series.chunks.len() {
        lemma_label_keeps_metrics(series, key, chunk_index + 1);
        let after = series.ensure_label(key);
        let chunk = series.chunks[chunk_index];
        assert forall|e: int| 0 <= e < chunk.events.len() implies chunk_metrics(
            chunk,
            after.labels,
        )[e] == chunk_metrics(chunk, series.labels)[e] by {
            let event = series.chunks[chunk_index].events[e];
            lemma_resolve_stable(series.labels, key, event.label);
        }
        assert(chunk_metrics(chunk, after.labels) =~= chunk_metrics(chunk, series.labels));
    }
}

/// In a table with dense ids, no metric twice and at most 65536 entries, the
/// id that a key is interned under stands for a key that names the same
/// metric: the key itself where it is new to the table, and else the key
/// that the table holds for it.
pub proof fn lemma_resolve_interned(table: Seq<EntrySpec>, key: KeySpec)
    requires
        unique_keys(table),
        dense_ids(table),
        spec_ensure(table, key).len() <= SENTINEL_ID + 1,
    ensures
        spec_key_of(spec_ensure(table, key), spec_ensure_id(table, key)) is Some,
        spec_resolve(spec_ensure(table, key), spec_ensure_id(table, key)).same_as(key),
        spec_get(table, key) is None ==> spec_resolve(
            spec_ensure(table, key),
            spec_ensure_id(table, key),
        ) == key,
        spec_get(table, spec_resolve(spec_ensure(table, key), spec_ensure_id(table, key)))
            == spec_get(table, key),
{
    let after = spec_ensure(table, key);
    let id = spec_ensure_id(table, key);
    lemma_ensure_preserves(table, key);
    lemma_index_of(table, key);
    let index: int = match spec_index_of(table, key) {
        Some(index) => index,
        None => table.len() as int,
    };
    if spec_index_of(table, key) is None {
        assert(after.drop_last() =~= table);
    }
    assert(after[index].id == index);
    assert(id == index);
    assert forall|j: int| 0 <= j < index implies (#[trigger] after[j]).id != id by {}
    lemma_key_of_first(after, id, index);
    let found = spec_resolve(after, id);
    assert(found == after[index].key);
    if spec_index_of(table, key) is Some {
        assert(found == table[index].key);
        assert(found.same_as(key));
        lemma_same_as_equivalence(found, key, key);
        lemma_get_same_key(table, found, key);
    }
}

/// An event that is appended at the instant at which a walk reports it goes
/// where it went at the instant at which it was first appended.
pub proof fn lemma_instant_stable(series: ProcessionView, entry: Entry, label: u16, now: Timestamp)
    requires
        series.windows_fit(),
        now.nanos + WINDOW_NANOS <= i128::MAX,
    ensures
        series.insert_at(
            entry,
            label,
            series.chunks_for(now).last().reference_time.spec_plus_millis(series.offset_for(now)),
        ) == series.insert_at(entry, label, now),
{
    let reference = series.chunks_for(now).last().reference_time;
    let ms = series.offset_for(now);
    let reported = reference.spec_plus_millis(ms);
    if !series.rolls_over(now) {
        assert(reference == series.chunks[series.chunks.len() - 1].reference_time);
        assert(reported.nanos == reference.nanos + ms * NANOS_PER_MILLI);
        assert(reported.nanos_since(reference) == ms * NANOS_PER_MILLI);
        assert(reported.spec_offset_since(reference) == ms);
    }
}

/// A series built from logical events whose instants leave room for a
/// window has dense ids and no metric twice in its table, refers only to
/// keys that the table holds, and has no chunk whose window cannot be told.
pub proof fn lemma_from_metrics_shape(metrics: Seq<MetricSpec>)
    requires
        forall|i: int|
            0 <= i < metrics.len() ==> (#[trigger] metrics[i]).when.nanos + WINDOW_NANOS
                <= i128::MAX,
    ensures
        unique_keys(ProcessionView::from_metrics(metrics).labels),
        dense_ids(ProcessionView::from_metrics(metrics).labels),
        ProcessionView::from_metrics(metrics).resolvable(),
        ProcessionView::from_metrics(metrics).windows_fit(),
        metrics.len() > 0 ==> ProcessionView::from_metrics(metrics.drop_last()).labels.len()
            <= ProcessionView::from_metrics(metrics).labels.len(),
    decreases metrics.len(),
{
    if metrics.len() > 0 {
        let front = metrics.drop_last();
        let last = metrics.last();
        assert forall|i: int| 0 <= i < front.len() implies (#[trigger] front[i]).when.nanos
            + WINDOW_NANOS <= i128::MAX by {
            assert(front[i] == metrics[i]);
        }
        lemma_from_metrics_shape(front);
        let before = ProcessionView::from_metrics(front);
        let keyed = before.ensure_label(last.key);
        let id = spec_ensure_id(before.labels, last.key);
        let after = ProcessionView::from_metrics(metrics);
        lemma_ensure_preserves(before.labels, last.key);
        lemma_index_of(keyed.labels, last.key);
        lemma_key_of_absent(keyed.labels, id);
        assert(spec_key_of(keyed.labels, id) is Some) by {
            let at = spec_index_of(keyed.labels, last.key)->0;
            assert(keyed.labels[at].id == id);
        }
        let ready = keyed.chunks_for(last.when);
        let end = ready.len() - 1;
        assert forall|c: int, e: int|
            0 <= c < after.chunks.len() && 0 <= e < after.chunks[c].events.len() implies spec_key_of(
            after.labels,
            (#[trigger] after.chunks[c].events[e]).label,
        ) is Some by {
            if c < before.chunks.len() && e < before.chunks[c].events.len() {
                assert(after.chunks[c].events[e] == before.chunks[c].events[e]);
                lemma_resolve_stable(
                    before.labels,
                    last.key,
                    before.chunks[c].events[e].label,
                );
            } else {
                assert(c == end);
                assert(after.chunks[c].events[e].label == id);
            }
        }
        assert forall|c: int| 0 <= c < after.chunks.len() implies (
        #[trigger] after.chunks[c]).reference_time.nanos + WINDOW_NANOS <= i128::MAX by {
            if c < before.chunks.len() {
                assert(after.chunks[c].reference_time == before.chunks[c].reference_time);
            }
        }
    }
}

/// A series that was built from logical events is given back when it is
/// built again from the events that a walk over it gives, as long as its
/// table has no more than 65536 entries and the instants of the events leave
/// room for a window.
pub proof fn lemma_rebuild_gives_back(metrics: Seq<MetricSpec>)
    requires
        ProcessionView::from_metrics(metrics).labels.len() <= SENTINEL_ID + 1,
        forall|i: int|
            0 <= i < metrics.len() ==> (#[trigger] metrics[i]).when.nanos + WINDOW_NANOS
                <= i128::MAX,
    ensures
        ProcessionView::from_metrics(ProcessionView::from_metrics(metrics).metrics())
            == ProcessionView::from_metrics(metrics),
    decreases metrics.len(),
{
    if metrics.len() == 0 {
        assert(ProcessionView::empty().metrics() =~= Seq::empty());
    } else {
        let front = metrics.drop_last();
        let last = metrics.last();
        assert forall|i: int| 0 <= i < front.len() implies (#[trigger] front[i]).when.nanos
            + WINDOW_NANOS <= i128::MAX by {
            assert(front[i] == metrics[i]);
        }
        lemma_from_metrics_shape(metrics);
        lemma_from_metrics_shape(front);
        lemma_rebuild_gives_back(front);
        let before = ProcessionView::from_metrics(front);
        let keyed = before.ensure_label(last.key);
        let id = spec_ensure_id(before.labels, last.key);
        let after = ProcessionView::from_metrics(metrics);
        let reported = MetricSpec {
            when: keyed.chunks_for(last.when).last().reference_time.spec_plus_millis(
                keyed.offset_for(last.when),
            ),
            event: last.event,
            key: spec_resolve(keyed.labels, id),
        };
        // the walk over the new series is the walk over the old one, and then the new event
        lemma_insert_appends(keyed, last.event, id, last.when);
        lemma_label_keeps_metrics(before, last.key, 0);
        assert(after.metrics() == before.metrics().push(reported));
        assert(after.metrics().drop_last() =~= before.metrics());
        assert(ProcessionView::from_metrics(after.metrics()) == before.record(reported));
        // the event as reported is recorded as the event itself was
        lemma_resolve_interned(before.labels, last.key);
        assert(spec_ensure(before.labels, reported.key) == spec_ensure(before.labels, last.key));
        assert(spec_ensure_id(before.labels, reported.key) == id);
        lemma_instant_stable(keyed, last.event, id, last.when);
    }
}

} // verus!
