//! Walking a series: each compact event is turned back into a logical event
//! that says when it happened, what was written, and on which metric.

use vstd::prelude::*;
use crate::chunk::{Chunk, ChunkView};
use crate::event::{Entry, Event};
use crate::key::{
    clone_pairs, pairs_view, pairs_within, same_text, KeySpec, LabelPair, MetricKey,
};
use crate::label_set::{spec_key_of, EntrySpec};
use crate::procession::{Procession, ProcessionView};
use crate::timestamp::Timestamp;

verus! {

/// What a logical event says: the instant, the entry, and the key.
pub struct MetricSpec {
    pub when: Timestamp,
    pub event: Entry,
    pub key: KeySpec,
}

impl MetricSpec {
    /// Whether two logical events say the same: the same instant, the same
    /// entry, and keys that name the same metric.
    pub open spec fn same_as(self, other: MetricSpec) -> bool {
        self.when == other.when && self.event == other.event && self.key.same_as(other.key)
    }
}

/// A key borrowed from the table of a series.
#[derive(Debug, Clone, Copy)]
pub struct KeyRef<'a> {
    pub name: &'a str,
    pub labels: &'a [LabelPair],
}

impl<'a> View for KeyRef<'a> {
    type V = KeySpec;

    open spec fn view(&self) -> KeySpec {
        KeySpec { name: self.name@, labels: pairs_view(self.labels@) }
    }
}

impl<'a> KeyRef<'a> {
    /// The metric's name.
    pub fn name(&self) -> (r: &'a str)
        ensures
            r@ == self@.name,
    {
        self.name
    }

    /// The metric's label pairs.
    pub fn labels(&self) -> (r: &'a [LabelPair])
        ensures
            pairs_view(r@) == self@.labels,
    {
        self.labels
    }

    /// The key without a name or labels.
    pub fn unnamed() -> (r: KeyRef<'a>)
        ensures
            r@ == KeySpec::unnamed(),
    {
        proof {
            reveal_strlit("");
        }
        let r = KeyRef { name: "", labels: &[] };
        assert(r@.name =~= Seq::empty());
        assert(r@.labels =~= Seq::empty());
        r
    }

    /// The key as a value of its own.
    pub fn to_key(&self) -> (r: MetricKey)
        ensures
            r@ == self@,
    {
        MetricKey { name: self.name.to_owned(), labels: clone_pairs(self.labels) }
    }
}

impl MetricKey {
    /// The key, borrowed.
    pub fn as_key_ref(&self) -> (r: KeyRef<'_>)
        ensures
            r@ == self@,
    {
        KeyRef { name: self.name.as_str(), labels: self.labels.as_slice() }
    }
}

/// One event of a series with all that it says, borrowed from the series.
#[derive(Debug)]
pub struct MetricRef<'a> {
    /// The instant at which the event was recorded.
    pub when: Timestamp,
    /// What was written.
    pub event: Entry,
    /// The metric that it was written on.
    pub key: KeyRef<'a>,
}

impl<'a> View for MetricRef<'a> {
    type V = MetricSpec;

    open spec fn view(&self) -> MetricSpec {
        MetricSpec { when: self.when, event: self.event, key: self.key@ }
    }
}

/// One event of a series with all that it says, as a value of its own.
#[derive(Debug)]
pub struct Metric {
    /// The instant at which the event was recorded.
    pub when: Timestamp,
    /// What was written.
    pub event: Entry,
    /// The name of the metric that it was written on.
    pub key: String,
    /// The label pairs of that metric.
    pub labels: Vec<LabelPair>,
}

impl View for Metric {
    type V = MetricSpec;

    open spec fn view(&self) -> MetricSpec {
        MetricSpec {
            when: self.when,
            event: self.event,
            key: KeySpec { name: self.key@, labels: pairs_view(self.labels@) },
        }
    }
}

impl Clone for Metric {
    fn clone(&self) -> (r: Metric)
        ensures
            r@ == self@,
    {
        Metric {
            when: self.when,
            event: self.event,
            key: self.key.clone(),
            labels: clone_pairs(self.labels.as_slice()),
        }
    }
}

impl<'a> MetricRef<'a> {
    /// The event as a value of its own, with copies of the name and labels.
    pub fn to_metric(&self) -> (r: Metric)
        ensures
            r@ == self@,
    {
        Metric {
            when: self.when,
            event: self.event,
            key: self.key.name.to_owned(),
            labels: clone_pairs(self.key.labels),
        }
    }
}

impl Metric {
    /// The event, borrowed.
    pub fn as_metric_ref(&self) -> (r: MetricRef<'_>)
        ensures
            r@ == self@,
    {
        MetricRef {
            when: self.when,
            event: self.event,
            key: KeyRef { name: self.key.as_str(), labels: self.labels.as_slice() },
        }
    }
}

/// The key that an event with the id `label` is reported under: the key that
/// the id stands for in `labels`, and the key without name or labels where it
/// stands for none.
pub open spec fn spec_resolve(labels: Seq<EntrySpec>, label: u16) -> KeySpec {
    match spec_key_of(labels, label) {
        Some(key) => key,
        None => KeySpec::unnamed(),
    }
}

/// The logical events of one chunk, in the order of its events.
pub open spec fn chunk_metrics(chunk: ChunkView, labels: Seq<EntrySpec>) -> Seq<MetricSpec> {
    Seq::new(
        chunk.events.len(),
        |i: int|
            MetricSpec {
                when: chunk.instant_of(i),
                event: chunk.events[i].entry,
                key: spec_resolve(labels, chunk.events[i].label),
            },
    )
}

impl ProcessionView {
    /// The logical events that a walk still has to give when it stands before
    /// the event `event_index` of the chunk `chunk_index`: the rest of that
    /// chunk, then the chunks after it.
    pub open spec fn metrics_from(self, chunk_index: int, event_index: int) -> Seq<MetricSpec>
        decreases self.chunks.len() - chunk_index,
    {
        if chunk_index < 0 || chunk_index >= self.chunks.len() {
            Seq::empty()
        } else {
            let here = chunk_metrics(self.chunks[chunk_index], self.labels);
            let rest = self.metrics_from(chunk_index + 1, 0);
            if 0 <= event_index < here.len() {
                here.subrange(event_index, here.len() as int) + rest
            } else {
                rest
            }
        }
    }

    /// All logical events of the series: chunk after chunk, and in each chunk
    /// event after event.
    pub open spec fn metrics(self) -> Seq<MetricSpec> {
        self.metrics_from(0, 0)
    }
}

/// A walk over a series that gives each event borrowed from it.
pub struct MetricsRefIterator<'a> {
    stream: &'a Procession,
    chunk_index: usize,
    event_index: usize,
}

impl<'a> MetricsRefIterator<'a> {
    /// The logical events that the walk has not given yet.
    pub closed spec fn remaining(&self) -> Seq<MetricSpec> {
        self.stream@.metrics_from(self.chunk_index as int, self.event_index as int)
    }

    /// A walk that stands before the first event of `stream`.
    pub fn from(stream: &'a Procession) -> (r: MetricsRefIterator<'a>)
        ensures
            r.remaining() == stream@.metrics(),
    {
        MetricsRefIterator { stream, chunk_index: 0, event_index: 0 }
    }

    /// The next event of the walk, and `None` once every event has been
    /// given.
    pub fn next(&mut self) -> (r: Option<MetricRef<'a>>)
        ensures
            match r {
                Some(metric) => {
                    &&& old(self).remaining().len() > 0
                    &&& metric@ == old(self).remaining().first()
                    &&& final(self).remaining() == old(self).remaining().drop_first()
                },
                None => {
                    &&& old(self).remaining().len() == 0
                    &&& final(self).remaining().len() == 0
                },
            },
    {
        let stream: &'a Procession = self.stream;
        match self.get_next_event() {
            Some((event, chunk)) => {
                let key = match stream.labels.key_of(event.label) {
                    Some(key) => key.as_key_ref(),
                    None => KeyRef::unnamed(),
                };
                Some(
                    MetricRef {
                        when: chunk.reference_time.plus_millis(event.ms),
                        event: event.entry,
                        key,
                    },
                )
            },
            None => None,
        }
    }

    /// Moves the walk past the next event, and returns that event with the
    /// chunk that holds it. A chunk that the walk has used up, or that has no
    /// events, is passed over.
    fn get_next_event(&mut self) -> (r: Option<(&'a Event, &'a Chunk)>)
        ensures
            final(self).stream == old(self).stream,
            match r {
                Some((event, chunk)) => {
                    &&& old(self).remaining().len() > 0
                    &&& old(self).remaining().first() == (MetricSpec {
                        when: chunk.reference_time.spec_plus_millis(event.ms),
                        event: event.entry,
                        key: spec_resolve(old(self).stream@.labels, event.label),
                    })
                    &&& final(self).remaining() == old(self).remaining().drop_first()
                },
                None => {
                    &&& old(self).remaining().len() == 0
                    &&& final(self).remaining().len() == 0
                },
            },
    {
        let stream: &'a Procession = self.stream;
        while self.chunk_index < stream.chunks.len()
            invariant
                self.stream == stream,
                old(self).stream == stream,
                self.remaining() == old(self).remaining(),
            decreases stream.chunks.len() - self.chunk_index,
        {
            let chunk: &'a Chunk = &stream.chunks[self.chunk_index];
            if self.event_index < chunk.events.len() {
                let event: &'a Event = &chunk.events[self.event_index];
                let ghost here = chunk_metrics(
                    stream@.chunks[self.chunk_index as int],
                    stream@.labels,
                );
                let ghost at = self.event_index as int;
                let ghost rest = stream@.metrics_from(self.chunk_index + 1, 0);
                assert(self.remaining() == here.subrange(at, here.len() as int) + rest);
                assert(here[at] == (MetricSpec {
                    when: chunk.reference_time.spec_plus_millis(event.ms),
                    event: event.entry,
                    key: spec_resolve(stream@.labels, event.label),
                }));
                self.event_index += 1;
                assert(self.remaining() =~= (here.subrange(at, here.len() as int)
                    + rest).drop_first()) by {
                    if at + 1 < here.len() {
                        assert(self.remaining() == here.subrange(at + 1, here.len() as int)
                            + rest);
                    } else {
                        assert(self.remaining() == rest);
                    }
                }
                return Some((event, chunk));
            }
            self.chunk_index += 1;
            self.event_index = 0;
        }
        None
    }

    /// The events that the walk has not given yet, in order.
    pub fn collect(self) -> (r: Vec<MetricRef<'a>>)
        ensures
            metric_refs_view(r@) == self.remaining(),
    {
        let mut walk = self;
        let mut out: Vec<MetricRef<'a>> = Vec::new();
        loop
            invariant
                metric_refs_view(out@) + walk.remaining() == self.remaining(),
            ensures
                metric_refs_view(out@) == self.remaining(),
            decreases walk.remaining().len(),
        {
            let ghost before = walk.remaining();
            let ghost given = metric_refs_view(out@);
            match walk.next() {
                Some(metric) => {
                    out.push(metric);
                    assert(metric_refs_view(out@) =~= given.push(before.first()));
                    assert(given.push(before.first()) + before.drop_first() =~= given + before);
                },
                None => {
                    assert(given + before =~= given);
                    break;
                },
            }
        }
        out
    }
}

/// What a list of borrowed events says.
pub open spec fn metric_refs_view(metrics: Seq<MetricRef<'_>>) -> Seq<MetricSpec> {
    Seq::new(metrics.len(), |i: int| metrics[i]@)
}

/// What a list of events says.
pub open spec fn metrics_view(metrics: Seq<Metric>) -> Seq<MetricSpec> {
    Seq::new(metrics.len(), |i: int| metrics[i]@)
}

/// A walk over a series that gives each event as a value of its own.
pub struct MetricsIterator<'a>(MetricsRefIterator<'a>);

impl<'a> MetricsIterator<'a> {
    /// The logical events that the walk has not given yet.
    pub closed spec fn remaining(&self) -> Seq<MetricSpec> {
        self.0.remaining()
    }

    /// A walk that stands before the first event of `stream`.
    pub fn from(stream: &'a Procession) -> (r: MetricsIterator<'a>)
        ensures
            r.remaining() == stream@.metrics(),
    {
        MetricsIterator(MetricsRefIterator::from(stream))
    }

    /// The next event of the walk, and `None` once every event has been
    /// given.
    pub fn next(&mut self) -> (r: Option<Metric>)
        ensures
            match r {
                Some(metric) => {
                    &&& old(self).remaining().len() > 0
                    &&& metric@ == old(self).remaining().first()
                    &&& final(self).remaining() == old(self).remaining().drop_first()
                },
                None => {
                    &&& old(self).remaining().len() == 0
                    &&& final(self).remaining().len() == 0
                },
            },
    {
        match self.0.next() {
            Some(metric) => Some(metric.to_metric()),
            None => None,
        }
    }

    /// The events that the walk has not given yet, in order.
    pub fn collect(self) -> (r: Vec<Metric>)
        ensures
            metrics_view(r@) == self.remaining(),
    {
        let mut walk = self;
        let mut out: Vec<Metric> = Vec::new();
        loop
            invariant
                metrics_view(out@) + walk.remaining() == self.remaining(),
            ensures
                metrics_view(out@) == self.remaining(),
            decreases walk.remaining().len(),
        {
            let ghost before = walk.remaining();
            let ghost given = metrics_view(out@);
            match walk.next() {
                Some(metric) => {
                    out.push(metric);
                    assert(metrics_view(out@) =~= given.push(before.first()));
                    assert(given.push(before.first()) + before.drop_first() =~= given + before);
                },
                None => {
                    assert(given + before =~= given);
                    break;
                },
            }
        }
        out
    }
}

impl Procession {
    /// A walk over the events of the series, each borrowed from it.
    pub fn iter(&self) -> (r: MetricsRefIterator<'_>)
        ensures
            r.remaining() == self@.metrics(),
    {
        MetricsRefIterator::from(self)
    }

    /// A walk over the events of the series, each a value of its own.
    pub fn iter_owned(&self) -> (r: MetricsIterator<'_>)
        ensures
            r.remaining() == self@.metrics(),
    {
        MetricsIterator::from(self)
    }
}

impl<'a> PartialEq<MetricRef<'a>> for Metric {
    fn eq(&self, other: &MetricRef<'a>) -> (r: bool) {
        let mine: &[LabelPair] = self.labels.as_slice();
        let forth: bool = pairs_within(mine, other.key.labels);
        let back: bool = pairs_within(other.key.labels, mine);
        let names: bool = same_text(self.key.as_str(), other.key.name);
        assert(pairs_view(mine@) == self@.key.labels);
        self.when == other.when && self.event == other.event && names && forth && back
    }
}

impl<'a> vstd::std_specs::cmp::PartialEqSpecImpl<MetricRef<'a>> for Metric {
    open spec fn obeys_eq_spec() -> bool {
        true
    }

    open spec fn eq_spec(&self, other: &MetricRef<'a>) -> bool {
        self@.same_as(other@)
    }
}

impl<'a> PartialEq<Metric> for MetricRef<'a> {
    fn eq(&self, other: &Metric) -> (r: bool) {
        other.eq(self)
    }
}

impl<'a> vstd::std_specs::cmp::PartialEqSpecImpl<Metric> for MetricRef<'a> {
    open spec fn obeys_eq_spec() -> bool {
        true
    }

    open spec fn eq_spec(&self, other: &Metric) -> bool {
        other@.same_as(self@)
    }
}

/// The logical event that an event appended to the last chunk of `series`
/// is reported as.
pub open spec fn metric_of(series: ProcessionView, event: Event) -> MetricSpec
    recommends
        series.chunks.len() > 0,
{
    MetricSpec {
        when: series.chunks.last().reference_time.spec_plus_millis(event.ms),
        event: event.entry,
        key: spec_resolve(series.labels, event.label),
    }
}

/// The series with `event` appended to its last chunk.
pub open spec fn with_event(series: ProcessionView, event: Event) -> ProcessionView
    recommends
        series.chunks.len() > 0,
{
    ProcessionView {
        chunks: series.chunks.update(
            series.chunks.len() - 1,
            series.chunks.last().push(event),
        ),
        labels: series.labels,
    }
}

/// An event appended to the last chunk comes last in every walk that has not
/// passed it, and changes nothing before it.
pub proof fn lemma_event_comes_last(series: ProcessionView, event: Event, chunk_index: int)
    requires
        0 <= chunk_index < series.chunks.len(),
    ensures
        with_event(series, event).metrics_from(chunk_index, 0) == series.metrics_from(
            chunk_index,
            0,
        ).push(metric_of(series, event)),
    decreases series.chunks.len() - chunk_index,
{
    let after = with_event(series, event);
    let last = series.chunks.len() - 1;
    let added = metric_of(series, event);
    let here = chunk_metrics(series.chunks[chunk_index], series.labels);
    let here_after = chunk_metrics(after.chunks[chunk_index], after.labels);
    if chunk_index == last {
        assert(here_after =~= here.push(added));
        assert(after.metrics_from(chunk_index + 1, 0) =~= Seq::empty());
        assert(series.metrics_from(chunk_index + 1, 0) =~= Seq::empty());
        assert(after.metrics_from(chunk_index, 0) =~= series.metrics_from(chunk_index, 0).push(
            added,
        ));
    } else {
        lemma_event_comes_last(series, event, chunk_index + 1);
        assert(here_after =~= here);
        assert(after.metrics_from(chunk_index, 0) =~= series.metrics_from(chunk_index, 0).push(
            added,
        ));
    }
}

/// A chunk without events adds nothing to a walk.
pub proof fn lemma_empty_chunk_adds_nothing(
    series: ProcessionView,
    reference_time: Timestamp,
    chunk_index: int,
)
    requires
        0 <= chunk_index <= series.chunks.len(),
    ensures
        (ProcessionView {
            chunks: series.chunks.push(ChunkView { reference_time, events: Seq::empty() }),
            labels: series.labels,
        }).metrics_from(chunk_index, 0) == series.metrics_from(chunk_index, 0),
    decreases series.chunks.len() - chunk_index,
{
    let after = ProcessionView {
        chunks: series.chunks.push(ChunkView { reference_time, events: Seq::empty() }),
        labels: series.labels,
    };
    if chunk_index == series.chunks.len() {
        assert(after.metrics_from(chunk_index + 1, 0) =~= Seq::empty());
        assert(after.metrics_from(chunk_index, 0) =~= Seq::empty());
    } else {
        lemma_empty_chunk_adds_nothing(series, reference_time, chunk_index + 1);
        assert(after.chunks[chunk_index] == series.chunks[chunk_index]);
    }
}

/// Appending an entry adds exactly one logical event to the series, at the
/// end, and leaves the events before it as they were: whatever the order in
/// which writers take their turns, no write is lost and none counts twice.
pub proof fn lemma_insert_appends(series: ProcessionView, entry: Entry, label: u16, now: Timestamp)
    ensures
        series.insert_at(entry, label, now).metrics() == series.metrics().push(
            MetricSpec {
                when: series.chunks_for(now).last().reference_time.spec_plus_millis(
                    series.offset_for(now),
                ),
                event: entry,
                key: spec_resolve(series.labels, label),
            },
        ),
        series.insert_at(entry, label, now).metrics().len() == series.metrics().len() + 1,
{
    let ready = ProcessionView { chunks: series.chunks_for(now), labels: series.labels };
    let event = Event { entry, ms: series.offset_for(now), label };
    if series.rolls_over(now) {
        lemma_empty_chunk_adds_nothing(series, now, 0);
    }
    assert(ready.metrics() == series.metrics());
    lemma_event_comes_last(ready, event, 0);
    assert(with_event(ready, event) == series.insert_at(entry, label, now));
}

/// The two walks over one series give, place by place, events that compare
/// equal: what a list of borrowed events and a list of owned events say
/// alike compares equal at every index.
pub proof fn lemma_walks_agree(
    owned: Seq<Metric>,
    borrowed: Seq<MetricRef<'_>>,
    series: ProcessionView,
)
    requires
        metrics_view(owned) == series.metrics(),
        metric_refs_view(borrowed) == series.metrics(),
    ensures
        owned.len() == borrowed.len(),
        forall|i: int| 0 <= i < owned.len() ==> (#[trigger] owned[i])@.same_as(borrowed[i]@),
{
    assert(metrics_view(owned).len() == owned.len());
    assert(metric_refs_view(borrowed).len() == borrowed.len());
    assert forall|i: int| 0 <= i < owned.len() implies (#[trigger] owned[i])@.same_as(
        borrowed[i]@,
    ) by {
        assert(metrics_view(owned)[i] == owned[i]@);
        assert(metric_refs_view(borrowed)[i] == borrowed[i]@);
    }
}

} // verus!
