//! The series itself: chunks in the order of their reference times, and the
//! table of the keys that their events refer to.

use vstd::prelude::*;
use crate::chunk::{Chunk, ChunkView};
use crate::event::{Entry, Event};
use crate::iter::{
    lemma_insert_appends, metric_refs_view, metrics_view, Metric, MetricRef, MetricSpec,
};
use crate::key::{KeySpec, MetricKey};
use crate::label_set::{same_table, spec_ensure, spec_ensure_id, EntrySpec, LabelSet};
use crate::timestamp::{Timestamp, NANOS_PER_MILLI, WINDOW_NANOS};

verus! {

/// A time series of metric events.
#[derive(Debug)]
pub struct Procession {
    /// The chunks, oldest first; each covers at most 65.535 seconds.
    pub chunks: Vec<Chunk>,
    /// The keys that the events refer to by id.
    pub labels: LabelSet,
}

/// What a series holds.
pub struct ProcessionView {
    pub chunks: Seq<ChunkView>,
    pub labels: Seq<EntrySpec>,
}

/// What a list of chunks holds.
pub open spec fn chunks_view(chunks: Seq<Chunk>) -> Seq<ChunkView> {
    Seq::new(chunks.len(), |i: int| chunks[i]@)
}

impl View for Procession {
    type V = ProcessionView;

    open spec fn view(&self) -> ProcessionView {
        ProcessionView { chunks: chunks_view(self.chunks@), labels: self.labels@ }
    }
}

impl ProcessionView {
    /// The series without chunks or keys.
    pub open spec fn empty() -> ProcessionView {
        ProcessionView { chunks: Seq::empty(), labels: Seq::empty() }
    }

    /// Whether an event at `now` starts a new chunk: there is no chunk yet,
    /// or `now` lies more than 65535 ms after the reference time of the last
    /// one.
    pub open spec fn rolls_over(self, now: Timestamp) -> bool {
        self.chunks.len() == 0 || now.spec_beyond_window(self.chunks.last().reference_time)
    }

    /// The chunks once there is one to take an event at `now`: a new chunk
    /// that counts from `now` is appended where the event starts one.
    pub open spec fn chunks_for(self, now: Timestamp) -> Seq<ChunkView> {
        if self.rolls_over(now) {
            self.chunks.push(ChunkView { reference_time: now, events: Seq::empty() })
        } else {
            self.chunks
        }
    }

    /// The offset in its chunk of an event at `now`: 0 where it starts a new
    /// chunk, else what the time since the last chunk's reference time gives.
    pub open spec fn offset_for(self, now: Timestamp) -> u16 {
        if self.rolls_over(now) {
            0
        } else {
            now.spec_offset_since(self.chunks.last().reference_time)
        }
    }

    /// The series after an event with `entry` and `label` has been appended
    /// at the instant `now`.
    pub open spec fn insert_at(self, entry: Entry, label: u16, now: Timestamp) -> ProcessionView {
        let chunks = self.chunks_for(now);
        let event = Event { entry, ms: self.offset_for(now), label };
        ProcessionView {
            chunks: chunks.update(chunks.len() - 1, chunks.last().push(event)),
            labels: self.labels,
        }
    }

    /// The series after its table has been made to hold `key`.
    pub open spec fn ensure_label(self, key: KeySpec) -> ProcessionView {
        ProcessionView { chunks: self.chunks, labels: spec_ensure(self.labels, key) }
    }

    /// The series after a logical event has been recorded in it: the table is
    /// made to hold the event's key, and the entry is appended under the id
    /// of the key at the instant that the event carries.
    pub open spec fn record(self, metric: MetricSpec) -> ProcessionView {
        self.ensure_label(metric.key).insert_at(
            metric.event,
            spec_ensure_id(self.labels, metric.key),
            metric.when,
        )
    }

    /// The series that a list of logical events gives when they are recorded
    /// one after another, starting from nothing.
    pub open spec fn from_metrics(metrics: Seq<MetricSpec>) -> ProcessionView
        decreases metrics.len(),
    {
        if metrics.len() == 0 {
            ProcessionView::empty()
        } else {
            ProcessionView::from_metrics(metrics.drop_last()).record(metrics.last())
        }
    }

    /// Whether the reference times of the chunks never decrease, and in each
    /// chunk the offsets of the events never decrease.
    pub open spec fn chronological(self) -> bool {
        &&& forall|i: int, j: int|
            0 <= i <= j < self.chunks.len() ==> (#[trigger] self.chunks[i]).reference_time.nanos
                <= (#[trigger] self.chunks[j]).reference_time.nanos
        &&& forall|i: int| 0 <= i < self.chunks.len() ==> (#[trigger] self.chunks[i]).ordered()
    }
}

/// An entry appended exactly 65535 ms after the reference time of the last
/// chunk goes into that chunk, at the offset 65535. One appended a
/// millisecond later starts a new chunk that counts from the instant of the
/// entry, at the offset 0.
pub proof fn lemma_rollover_boundary(
    series: ProcessionView,
    entry: Entry,
    label: u16,
    now: Timestamp,
)
    requires
        series.chunks.len() > 0,
    ensures
        now.nanos_since(series.chunks.last().reference_time) == WINDOW_NANOS ==> {
            let after = series.insert_at(entry, label, now);
            &&& after.chunks.len() == series.chunks.len()
            &&& after.chunks.last() == series.chunks.last().push(
                Event { entry, ms: 65535, label },
            )
        },
        now.nanos_since(series.chunks.last().reference_time) == WINDOW_NANOS + NANOS_PER_MILLI
            ==> {
            let after = series.insert_at(entry, label, now);
            &&& after.chunks.len() == series.chunks.len() + 1
            &&& after.chunks.last() == (ChunkView {
                reference_time: now,
                events: seq![Event { entry, ms: 0, label }],
            })
        },
{
    let after = series.insert_at(entry, label, now);
    if now.nanos_since(series.chunks.last().reference_time) == WINDOW_NANOS + NANOS_PER_MILLI {
        assert(after.chunks.last().events =~= seq![Event { entry, ms: 0, label }]);
    }
}

/// Appending keeps every chunk and every event that the series had, in its
/// place: the series only grows.
pub proof fn lemma_insert_keeps(series: ProcessionView, entry: Entry, label: u16, now: Timestamp)
    ensures
        ({
            let after = series.insert_at(entry, label, now);
            &&& after.labels == series.labels
            &&& series.chunks.len() <= after.chunks.len() <= series.chunks.len() + 1
            &&& forall|i: int|
                0 <= i < series.chunks.len() ==> {
                    &&& (#[trigger] after.chunks[i]).reference_time
                        == series.chunks[i].reference_time
                    &&& series.chunks[i].events.is_prefix_of(after.chunks[i].events)
                }
        }),
{
}

/// While the clock does not go back behind the last event recorded, a series
/// that is in order stays in order: the reference times of its chunks never
/// decrease, nor do the offsets in a chunk.
pub proof fn lemma_insert_in_order(
    series: ProcessionView,
    entry: Entry,
    label: u16,
    now: Timestamp,
)
    requires
        series.chronological(),
        series.chunks.len() > 0 ==> now.nanos >= series.chunks.last().reference_time.nanos,
        series.chunks.len() > 0 && series.chunks.last().events.len() > 0 ==> now.nanos_since(
            series.chunks.last().reference_time,
        ) >= series.chunks.last().events.last().ms * NANOS_PER_MILLI,
    ensures
        series.insert_at(entry, label, now).chronological(),
{
    let after = series.insert_at(entry, label, now);
    let last = after.chunks.len() - 1;
    assert forall|i: int, j: int| 0 <= i <= j < after.chunks.len() implies (
    #[trigger] after.chunks[i]).reference_time.nanos <= (
    #[trigger] after.chunks[j]).reference_time.nanos by {
        if j < series.chunks.len() {
            assert(series.chunks[i].reference_time.nanos <= series.chunks[j].reference_time.nanos);
        } else if i < series.chunks.len() {
            assert(series.chunks[i].reference_time.nanos
                <= series.chunks[series.chunks.len() - 1].reference_time.nanos);
        }
    }
    assert forall|i: int| 0 <= i < after.chunks.len() implies (
    #[trigger] after.chunks[i]).ordered() by {
        if i < last {
            assert(series.chunks[i].ordered());
        } else if !series.rolls_over(now) {
            let old_chunk = series.chunks[last];
            assert(old_chunk.ordered());
            assert forall|x: int, y: int| 0 <= x <= y < after.chunks[i].events.len() implies
                after.chunks[i].events[x].ms <= after.chunks[i].events[y].ms by {
                if y < old_chunk.events.len() {
                    assert(old_chunk.events[x].ms <= old_chunk.events[y].ms);
                } else if x < old_chunk.events.len() {
                    assert(old_chunk.events[x].ms <= old_chunk.events[old_chunk.events.len()
                        - 1].ms);
                }
            }
        }
    }
}

impl Procession {
    /// Finds the chunk for an event at `now`, and the event's offset in it.
    ///
    /// Where the series has no chunk, or `now` lies more than 65535 ms after
    /// the reference time of the last chunk, a new chunk that counts from
    /// `now` is appended and the offset is 0. Otherwise the chunk is the last
    /// one and the offset is the whole milliseconds since its reference
    /// time. What is written through the reference returned becomes the last
    /// chunk of the series.
    pub fn last_chunk_and_ms(&mut self, now: Timestamp) -> (r: (&mut Chunk, u16))
        ensures
            r.1 == old(self)@.offset_for(now),
            (*r.0)@ == old(self)@.chunks_for(now).last(),
            final(self)@.labels == old(self)@.labels,
            final(self)@.chunks == old(self)@.chunks_for(now).update(
                old(self)@.chunks_for(now).len() - 1,
                (*final(r.0))@,
            ),
    {
        let count: usize = self.chunks.len();
        let roll: bool = count == 0 || now.beyond_window(self.chunks[count - 1].reference_time);
        if roll {
            self.chunks.push(Chunk::new(now));
        }
        let ghost chunks = chunks_view(self.chunks@);
        assert(chunks =~= old(self)@.chunks_for(now));
        let last: usize = self.chunks.len() - 1;
        let ms: u16 = if roll {
            0
        } else {
            now.offset_since(self.chunks[last].reference_time)
        };
        (&mut self.chunks[last], ms)
    }

    /// Appends an event with `entry` and `label` at the instant `now`, which
    /// the caller has read from the clock.
    pub fn insert_entry_at(&mut self, entry: Entry, label: u16, now: Timestamp)
        ensures
            final(self)@ == old(self)@.insert_at(entry, label, now),
            final(self)@.metrics().len() == old(self)@.metrics().len() + 1,
    {
        proof {
            lemma_insert_appends(self@, entry, label, now);
        }
        let (chunk, ms) = self.last_chunk_and_ms(now);
        chunk.push(Event { entry, ms, label });
    }

    /// Appends an event with `entry` and `label` at the instant that the
    /// clock shows.
    pub fn insert_entry(&mut self, entry: Entry, label: u16)
        ensures
            exists|now: Timestamp| final(self)@ == old(self)@.insert_at(entry, label, now),
            final(self)@.metrics().len() == old(self)@.metrics().len() + 1,
    {
        let now = Timestamp::now();
        self.insert_entry_at(entry, label, now);
    }

    /// Makes sure that the table holds `key`, and returns its id.
    pub fn ensure_label(&mut self, key: &MetricKey) -> (id: u16)
        ensures
            id == spec_ensure_id(old(self)@.labels, key@),
            final(self)@.labels == spec_ensure(old(self)@.labels, key@),
            final(self)@.chunks == old(self)@.chunks,
    {
        self.labels.ensure_key(key)
    }
}

impl Procession {
    /// Records one logical event: interns its key and appends its entry at
    /// the instant that it carries.
    pub fn record(&mut self, metric: &MetricRef<'_>)
        ensures
            final(self)@ == old(self)@.record(metric@),
    {
        let key = metric.key.to_key();
        let label = self.ensure_label(&key);
        self.insert_entry_at(metric.event, label, metric.when);
    }

    /// Builds a series from logical events, in their order. Each event is
    /// placed by the instant that it carries, not by the clock: a chunk ends
    /// where the next event lies more than 65535 ms after its reference time.
    pub fn from_iter(metrics: &[Metric]) -> (r: Procession)
        ensures
            r@ == ProcessionView::from_metrics(metrics_view(metrics@)),
    {
        let mut ret = Procession::default();
        let ghost all = metrics_view(metrics@);
        let mut i: usize = 0;
        assert(all.take(0) =~= Seq::empty());
        while i < metrics.len()
            invariant
                i <= metrics.len(),
                all == metrics_view(metrics@),
                ret@ == ProcessionView::from_metrics(all.take(i as int)),
            decreases metrics.len() - i,
        {
            let metric = metrics[i].as_metric_ref();
            ret.record(&metric);
            proof {
                assert(all.take(i + 1).drop_last() =~= all.take(i as int));
                assert(all.take(i + 1).last() == metrics@[i as int]@);
            }
            i += 1;
        }
        assert(all.take(i as int) =~= all);
        ret
    }

    /// Builds a series from borrowed logical events, in their order, as
    /// `from_iter` does from owned ones.
    pub fn from_iter_ref(metrics: &[MetricRef<'_>]) -> (r: Procession)
        ensures
            r@ == ProcessionView::from_metrics(metric_refs_view(metrics@)),
    {
        let mut ret = Procession::default();
        let ghost all = metric_refs_view(metrics@);
        let mut i: usize = 0;
        assert(all.take(0) =~= Seq::empty());
        while i < metrics.len()
            invariant
                i <= metrics.len(),
                all == metric_refs_view(metrics@),
                ret@ == ProcessionView::from_metrics(all.take(i as int)),
            decreases metrics.len() - i,
        {
            ret.record(&metrics[i]);
            proof {
                assert(all.take(i + 1).drop_last() =~= all.take(i as int));
                assert(all.take(i + 1).last() == metrics@[i as int]@);
            }
            i += 1;
        }
        assert(all.take(i as int) =~= all);
        ret
    }
}

impl Clone for Procession {
    fn clone(&self) -> (r: Procession)
        ensures
            r@ == self@,
    {
        let mut chunks: Vec<Chunk> = Vec::new();
        let mut i: usize = 0;
        while i < self.chunks.len()
            invariant
                i <= self.chunks.len(),
                chunks.len() == i,
                forall|j: int| 0 <= j < i ==> (#[trigger] chunks@[j])@ == self.chunks@[j]@,
            decreases self.chunks.len() - i,
        {
            chunks.push(self.chunks[i].clone());
            i += 1;
        }
        let r = Procession { chunks, labels: self.labels.clone() };
        assert(r@.chunks =~= self@.chunks);
        r
    }
}

impl PartialEq for Procession {
    fn eq(&self, other: &Procession) -> (r: bool) {
        if self.chunks.len() != other.chunks.len() {
            assert(self@.chunks.len() != other@.chunks.len());
            return false;
        }
        let mut i: usize = 0;
        while i < self.chunks.len()
            invariant
                i <= self.chunks.len(),
                self.chunks.len() == other.chunks.len(),
                forall|j: int| 0 <= j < i ==> (#[trigger] self@.chunks[j]) == other@.chunks[j],
            decreases self.chunks.len() - i,
        {
            if !(self.chunks[i] == other.chunks[i]) {
                assert(self@.chunks[i as int] != other@.chunks[i as int]);
                return false;
            }
            i += 1;
        }
        assert(self@.chunks =~= other@.chunks);
        self.labels == other.labels
    }
}

impl vstd::std_specs::cmp::PartialEqSpecImpl for Procession {
    open spec fn obeys_eq_spec() -> bool {
        true
    }

    open spec fn eq_spec(&self, other: &Procession) -> bool {
        self@.chunks == other@.chunks && same_table(self@.labels, other@.labels)
    }
}

impl Default for Procession {
    /// The series without chunks or keys.
    fn default() -> (r: Procession)
        ensures
            r@ == ProcessionView::empty(),
    {
        let r = Procession { chunks: Vec::new(), labels: LabelSet::default() };
        assert(r@.chunks =~= Seq::empty());
        r
    }
}

} // verus!
