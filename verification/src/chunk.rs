//! A window of at most 65.535 seconds of events under one reference time.

use vstd::prelude::*;
use vstd::layout::size_of;
use crate::event::Event;
use crate::timestamp::Timestamp;

verus! {

/// The events recorded from `reference_time` up to 65535 ms after it, in the
/// order in which they were appended.
#[derive(Debug)]
pub struct Chunk {
    /// The instant that the offsets of the events count from.
    pub reference_time: Timestamp,
    /// The events, oldest first.
    pub events: Vec<Event>,
}

/// What a chunk holds.
pub struct ChunkView {
    pub reference_time: Timestamp,
    pub events: Seq<Event>,
}

impl View for Chunk {
    type V = ChunkView;

    open spec fn view(&self) -> ChunkView {
        ChunkView { reference_time: self.reference_time, events: self.events@ }
    }
}

/// The byte count `n` where a `usize` holds it, and the largest `usize`
/// where none does.
pub open spec fn clip(n: nat) -> usize {
    if n <= usize::MAX {
        n as usize
    } else {
        usize::MAX
    }
}

impl ChunkView {
    /// The chunk after `event` has been appended.
    pub open spec fn push(self, event: Event) -> ChunkView {
        ChunkView { reference_time: self.reference_time, events: self.events.push(event) }
    }

    /// The instant at which the event at `index` was recorded.
    pub open spec fn instant_of(self, index: int) -> Timestamp
        recommends
            0 <= index < self.events.len(),
    {
        self.reference_time.spec_plus_millis(self.events[index].ms)
    }

    /// Whether the offsets of the events never decrease.
    pub open spec fn ordered(self) -> bool {
        forall|i: int, j: int|
            0 <= i <= j < self.events.len() ==> self.events[i].ms <= self.events[j].ms
    }

    /// An estimate of the bytes that the chunk takes up: the chunk itself and
    /// each of its events.
    pub open spec fn memory_size(self) -> nat {
        size_of::<Chunk>() + self.events.len() * size_of::<Event>()
    }
}

impl Chunk {
    /// An empty chunk that counts from `reference_time`.
    pub fn new(reference_time: Timestamp) -> (r: Chunk)
        ensures
            r@ == (ChunkView { reference_time, events: Seq::empty() }),
    {
        Chunk { reference_time, events: Vec::new() }
    }

    /// Appends `event`.
    pub fn push(&mut self, event: Event)
        ensures
            final(self)@ == old(self)@.push(event),
    {
        self.events.push(event);
    }

    /// An estimate of the bytes that the chunk takes up, as far as a `usize`
    /// can count them.
    pub fn memory_size(&self) -> (r: usize)
        ensures
            r == clip(self@.memory_size()),
    {
        let own: usize = core::mem::size_of::<Chunk>();
        let each: usize = core::mem::size_of::<Event>();
        let n: usize = self.events.len();
        assert(n * each <= usize::MAX ==> own + n * each == self@.memory_size());
        match n.checked_mul(each) {
            Some(events) => own.saturating_add(events),
            None => usize::MAX,
        }
    }
}

impl Default for Chunk {
    /// An empty chunk that counts from the instant at which it is made.
    fn default() -> (r: Chunk)
        ensures
            r@.events == Seq::<Event>::empty(),
    {
        Chunk::new(Timestamp::now())
    }
}

impl Clone for Chunk {
    fn clone(&self) -> (r: Chunk)
        ensures
            r@ == self@,
    {
        let mut events: Vec<Event> = Vec::new();
        let mut i: usize = 0;
        while i < self.events.len()
            invariant
                i <= self.events.len(),
                events@ == self.events@.subrange(0, i as int),
            decreases self.events.len() - i,
        {
            events.push(self.events[i]);
            i += 1;
        }
        assert(events@ =~= self.events@);
        Chunk { reference_time: self.reference_time, events }
    }
}

impl PartialEq for Chunk {
    fn eq(&self, other: &Chunk) -> (r: bool) {
        if !(self.reference_time == other.reference_time) {
            return false;
        }
        if self.events.len() != other.events.len() {
            return false;
        }
        let mut i: usize = 0;
        while i < self.events.len()
            invariant
                i <= self.events.len(),
                self.events.len() == other.events.len(),
                forall|j: int| 0 <= j < i ==> self.events@[j] == other.events@[j],
            decreases self.events.len() - i,
        {
            if !(self.events[i] == other.events[i]) {
                return false;
            }
            i += 1;
        }
        assert(self.events@ =~= other.events@);
        true
    }
}

impl vstd::std_specs::cmp::PartialEqSpecImpl for Chunk {
    open spec fn obeys_eq_spec() -> bool {
        true
    }

    open spec fn eq_spec(&self, other: &Chunk) -> bool {
        self@ == other@
    }
}

} // verus!
