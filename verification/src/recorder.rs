//! The recorder: one series behind a lock, shared by all who write to it,
//! and the handles through which counters, gauges and histograms are
//! written. A handle holds the id of its metric's key and a reference to the
//! recorder; each write takes the lock for one append.

use vstd::prelude::*;
use std::sync::{Arc, Mutex, MutexGuard, PoisonError};
use crate::event::{Entry, Op};
use crate::key::MetricKey;
use crate::chunk::clip;
use crate::procession::{Procession, ProcessionView};
use crate::timestamp::Timestamp;

verus! {

/// `std::sync::Mutex`, of which nothing but the type is known here.
#[verifier::external_type_specification]
#[verifier::external_body]
#[verifier::reject_recursive_types(T)]
pub struct ExMutex<T: ?Sized>(Mutex<T>);

/// `std::sync::MutexGuard`, of which nothing but the type is known here.
#[verifier::external_type_specification]
#[verifier::external_body]
#[verifier::reject_recursive_types(T)]
pub struct ExMutexGuard<'a, T: ?Sized + 'a>(MutexGuard<'a, T>);

/// `std::sync::PoisonError`, of which nothing but the type is known here.
#[verifier::external_type_specification]
#[verifier::external_body]
#[verifier::reject_recursive_types(T)]
pub struct ExPoisonError<T>(PoisonError<T>);

/// Puts `procession` behind a lock.
///
/// Calls `std::sync::Mutex::new`. Nothing is claimed of the lock returned.
#[verifier::external_body]
fn locked(procession: Procession) -> (r: Mutex<Procession>) {
    Mutex::new(procession)
}

/// Takes the lock, and waits for it while another holds it.
///
/// Calls `std::sync::Mutex::lock`. Nothing is claimed of what is returned:
/// the lock may be poisoned or not.
#[verifier::external_body]
fn acquire<'a>(shared: &'a Arc<Mutex<Procession>>) -> (r: Result<
    MutexGuard<'a, Procession>,
    PoisonError<MutexGuard<'a, Procession>>,
>) {
    shared.lock()
}

/// The guard of a lock whose earlier holder panicked.
///
/// Calls `std::sync::PoisonError::into_inner`. Nothing is claimed of the
/// guard returned.
#[verifier::external_body]
fn recover<'a>(poisoned: PoisonError<MutexGuard<'a, Procession>>) -> (r: MutexGuard<
    'a,
    Procession,
>) {
    poisoned.into_inner()
}

/// The series that a held lock guards, for reading.
///
/// Calls `Deref::deref` of `std::sync::MutexGuard`. Nothing is claimed of the
/// series: other holders of the lock may have written to it.
#[verifier::external_body]
fn guarded<'a>(guard: &'a MutexGuard<'_, Procession>) -> (r: &'a Procession) {
    guard
}

/// The series that a held lock guards, for writing.
///
/// Calls `DerefMut::deref_mut` of `std::sync::MutexGuard`. Nothing is
/// claimed of the series: other holders of the lock may have written to it.
#[verifier::external_body]
fn guarded_mut<'a>(guard: &'a mut MutexGuard<'_, Procession>) -> (r: &'a mut Procession) {
    guard
}

/// Another reference to the same lock.
///
/// Calls `Arc::clone`, which makes another pointer to the same allocation:
/// the lock that the reference returned points to is the lock of `shared`.
#[verifier::external_body]
fn shared_again(shared: &Arc<Mutex<Procession>>) -> (r: Arc<Mutex<Procession>>)
    ensures
        r == *shared,
{
    Arc::clone(shared)
}

/// A series that many writers share.
#[derive(Debug)]
pub struct ProcessionRecorder(Arc<Mutex<Procession>>);

impl ProcessionRecorder {
    /// Takes the lock, and waits for it while another holds it. A lock whose
    /// holder panicked is taken all the same, so that the recorder stays of
    /// use to the others.
    pub fn lock(&self) -> MutexGuard<'_, Procession> {
        match acquire(&self.0) {
            Ok(guard) => guard,
            Err(poisoned) => recover(poisoned),
        }
    }

    /// An estimate of the bytes that the series takes up at this moment: the
    /// estimate of the series that is found under the lock.
    pub fn memory_size(&self) -> (r: usize)
        ensures
            exists|found: ProcessionView| r == clip(#[trigger] found.memory_size()),
    {
        let guard = self.lock();
        guarded(&guard).memory_size()
    }

    /// Interns `key` in the series, under the lock, and returns its id.
    pub fn register(&self, key: &MetricKey) -> u16 {
        let mut guard = self.lock();
        guarded_mut(&mut guard).ensure_label(key)
    }

    /// A handle on the counter `key`, which is interned in the series. The
    /// handle writes to the series of this recorder, under the id that the
    /// key was interned under.
    pub fn register_counter(&self, key: &MetricKey) -> (r: Counter)
        ensures
            r.spec_recorder() == *self,
    {
        Counter::new(self.register(key), self.clone())
    }

    /// A handle on the gauge `key`, which is interned in the series. The
    /// handle writes to the series of this recorder, under the id that the
    /// key was interned under.
    pub fn register_gauge(&self, key: &MetricKey) -> (r: Gauge)
        ensures
            r.spec_recorder() == *self,
    {
        Gauge::new(self.register(key), self.clone())
    }

    /// A handle on the histogram `key`, which is interned in the series. The
    /// handle writes to the series of this recorder, under the id that the
    /// key was interned under.
    pub fn register_histogram(&self, key: &MetricKey) -> (r: Histo)
        ensures
            r.spec_recorder() == *self,
    {
        Histo::new(self.register(key), self.clone())
    }

    /// Appends `entry` under the id `label`, under the lock.
    pub fn insert_entry(&self, entry: Entry, label: u16) {
        let mut guard = self.lock();
        guarded_mut(&mut guard).insert_entry(entry, label);
    }
}

impl Default for ProcessionRecorder {
    /// A recorder with an empty series.
    fn default() -> ProcessionRecorder {
        ProcessionRecorder(Arc::new(locked(Procession::default())))
    }
}

impl Clone for ProcessionRecorder {
    /// Another reference to the same series.
    fn clone(&self) -> (r: ProcessionRecorder)
        ensures
            r == *self,
    {
        ProcessionRecorder(shared_again(&self.0))
    }
}

/// The entry that a counter write records: the value with its operation
/// where the value fits in 32 bits, and nothing where it does not.
pub open spec fn spec_counter_entry(value: u64, op: Op) -> Option<Entry> {
    if value <= u32::MAX {
        Some(Entry::Counter { value: value as u32, op })
    } else {
        None
    }
}

/// The series after a counter write of `value` with `op` on the key with the
/// id `label` at the instant `now`: one event more where the value fits in 32
/// bits, and the series as it was where it does not.
pub open spec fn spec_counter_write(
    before: ProcessionView,
    label: u16,
    value: u64,
    op: Op,
    now: Timestamp,
) -> ProcessionView {
    match spec_counter_entry(value, op) {
        Some(entry) => before.insert_at(entry, label, now),
        None => before,
    }
}

/// Writes `value` with `op` for the counter with the id `label` at the
/// instant `now`. A value that does not fit in 32 bits is dropped: the
/// series stays as it is, and `false` is returned.
pub fn write_counter_at(
    procession: &mut Procession,
    label: u16,
    value: u64,
    op: Op,
    now: Timestamp,
) -> (recorded: bool)
    requires
        op != Op::Sub,
    ensures
        recorded == (value <= u32::MAX),
        final(procession)@ == spec_counter_write(old(procession)@, label, value, op, now),
        final(procession)@.metrics().len() == old(procession)@.metrics().len() + (if recorded {
            1int
        } else {
            0int
        }),
{
    match Counter::entry(value, op) {
        Some(entry) => {
            procession.insert_entry_at(entry, label, now);
            true
        },
        None => false,
    }
}

/// Writes `value` with `op` for the counter with the id `label` at the
/// instant that the clock shows. A value that does not fit in 32 bits is
/// dropped: the series stays as it is, and `false` is returned.
pub fn write_counter(procession: &mut Procession, label: u16, value: u64, op: Op) -> (recorded:
    bool)
    requires
        op != Op::Sub,
    ensures
        recorded == (value <= u32::MAX),
        exists|now: Timestamp|
            final(procession)@ == spec_counter_write(old(procession)@, label, value, op, now),
        final(procession)@.metrics().len() == old(procession)@.metrics().len() + (if recorded {
            1int
        } else {
            0int
        }),
{
    let now = Timestamp::now();
    write_counter_at(procession, label, value, op, now)
}

/// A handle on a counter.
pub struct Counter(u16, ProcessionRecorder);

/// A handle on a gauge.
pub struct Gauge(u16, ProcessionRecorder);

/// A handle on a histogram.
pub struct Histo(u16, ProcessionRecorder);

impl Counter {
    /// The id of the counter's key.
    pub closed spec fn spec_label(&self) -> u16 {
        self.0
    }

    /// The recorder whose series the handle writes to.
    pub closed spec fn spec_recorder(&self) -> ProcessionRecorder {
        self.1
    }

    /// A handle that writes to the series of `recorder` under the id `label`.
    pub fn new(label: u16, recorder: ProcessionRecorder) -> (r: Counter)
        ensures
            r.spec_label() == label,
            r.spec_recorder() == recorder,
    {
        Counter(label, recorder)
    }

    /// The id of the counter's key.
    pub fn label(&self) -> (r: u16)
        ensures
            r == self.spec_label(),
    {
        self.0
    }

    /// The entry that a write of `value` with `op` records, if any.
    pub fn entry(value: u64, op: Op) -> (r: Option<Entry>)
        requires
            op != Op::Sub,
        ensures
            r == spec_counter_entry(value, op),
            r matches Some(entry) ==> entry.op_allowed(),
    {
        if value <= 0xffff_ffff {
            Some(Entry::Counter { value: value as u32, op })
        } else {
            None
        }
    }

    /// Writes `value` with `op`, under the lock. A value that does not fit
    /// in 32 bits is dropped: nothing is appended, and `false` is returned.
    pub fn insert(&self, value: u64, op: Op) -> (recorded: bool)
        requires
            op != Op::Sub,
        ensures
            recorded == (value <= u32::MAX),
    {
        if value > 0xffff_ffff {
            return false;
        }
        let mut guard = self.1.lock();
        write_counter(guarded_mut(&mut guard), self.0, value, op)
    }

    /// Adds `value` to the counter.
    pub fn increment(&self, value: u64) -> (recorded: bool)
        ensures
            recorded == (value <= u32::MAX),
    {
        self.insert(value, Op::Add)
    }

    /// Sets the counter to `value`.
    pub fn absolute(&self, value: u64) -> (recorded: bool)
        ensures
            recorded == (value <= u32::MAX),
    {
        self.insert(value, Op::Overwrite)
    }
}

impl Gauge {
    /// The id of the gauge's key.
    pub closed spec fn spec_label(&self) -> u16 {
        self.0
    }

    /// The recorder whose series the handle writes to.
    pub closed spec fn spec_recorder(&self) -> ProcessionRecorder {
        self.1
    }

    /// A handle that writes to the series of `recorder` under the id `label`.
    pub fn new(label: u16, recorder: ProcessionRecorder) -> (r: Gauge)
        ensures
            r.spec_label() == label,
            r.spec_recorder() == recorder,
    {
        Gauge(label, recorder)
    }

    /// The id of the gauge's key.
    pub fn label(&self) -> (r: u16)
        ensures
            r == self.spec_label(),
    {
        self.0
    }

    /// Adds the number with the bit pattern `value` to the gauge.
    pub fn increment(&self, value: u32) {
        self.1.insert_entry(Entry::Gauge { value, op: Op::Add }, self.0);
    }

    /// Takes the number with the bit pattern `value` away from the gauge.
    pub fn decrement(&self, value: u32) {
        self.1.insert_entry(Entry::Gauge { value, op: Op::Sub }, self.0);
    }

    /// Sets the gauge to the number with the bit pattern `value`.
    pub fn set(&self, value: u32) {
        self.1.insert_entry(Entry::Gauge { value, op: Op::Overwrite }, self.0);
    }
}

impl Histo {
    /// The id of the histogram's key.
    pub closed spec fn spec_label(&self) -> u16 {
        self.0
    }

    /// The recorder whose series the handle writes to.
    pub closed spec fn spec_recorder(&self) -> ProcessionRecorder {
        self.1
    }

    /// A handle that writes to the series of `recorder` under the id `label`.
    pub fn new(label: u16, recorder: ProcessionRecorder) -> (r: Histo)
        ensures
            r.spec_label() == label,
            r.spec_recorder() == recorder,
    {
        Histo(label, recorder)
    }

    /// The id of the histogram's key.
    pub fn label(&self) -> (r: u16)
        ensures
            r == self.spec_label(),
    {
        self.0
    }

    /// Records the number with the bit pattern `value` as one sample.
    pub fn record(&self, value: u32) {
        self.1.insert_entry(Entry::Histogram { value }, self.0);
    }
}

} // verus!
