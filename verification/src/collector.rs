//! The collector: the producer end of the bounded measurement channel. A
//! probe emits measurements through `Collect`; a collector stamps each one
//! with the timestamp it was created with and pushes it onto the channel,
//! blocking while the channel is full.

use vstd::prelude::*;
use crate::messaging::DataValue;
use crate::messaging::RawDataPointV;
use crate::messaging::RawDataPoint;
use crate::messaging::Timestamp;
use crate::messaging::make_data_point;
use crate::messaging::timestamp_ok;

verus! {

/// What a probe emits measurements through.
pub trait Collect {
    fn collect(&mut self, location: &str, path: &str, component: &str, value: DataValue);
}

#[verifier::external_type_specification]
#[verifier::external_body]
#[verifier::reject_recursive_types(T)]
pub struct ExSyncSender<T>(std::sync::mpsc::SyncSender<T>);

/// Relies on `std::sync::mpsc::SyncSender::clone`: the clone is another
/// producer handle of the same channel. Nothing is promised of the value.
pub assume_specification<T>[ <std::sync::mpsc::SyncSender<T> as Clone>::clone ](
    sender: &std::sync::mpsc::SyncSender<T>,
) -> std::sync::mpsc::SyncSender<T>;

/// Relies on `std::sync::mpsc::SyncSender::send`: it blocks while the
/// channel is full and fails only once the receiving side is gone. Whether
/// it succeeds depends on the receiver, so nothing more is promised of the
/// outcome.
#[verifier::external_body]
fn channel_send(sink: &std::sync::mpsc::SyncSender<RawDataPoint>, point: RawDataPoint) -> (ok:
    bool) {
    sink.send(point).is_ok()
}

/// Relies on `chrono::Utc::now`, `DateTime::timestamp` and
/// `DateTime::timestamp_subsec_nanos`: the current instant as seconds since
/// the Unix epoch and the nanoseconds of the current second; chrono keeps
/// the nanosecond count below two billion (the excess over a billion marks
/// a leap second). A system clock that predates the epoch — which chrono
/// refuses — is reported as the epoch.
#[verifier::external_body]
fn utc_now_parts() -> (r: (i64, u32))
    ensures
        r.1 < 2_000_000_000,
{
    if std::time::SystemTime::now().duration_since(std::time::UNIX_EPOCH).is_err() {
        return (0, 0);
    }
    let now = chrono::Utc::now();
    (now.timestamp(), now.timestamp_subsec_nanos())
}

/// The producer handle of the measurement channel, stamped with the instant
/// it was created. Every measurement collected through it carries that
/// stamp, so all emissions of one dispatch batch share a timestamp.
#[derive(Clone)]
pub struct Collector {
    timestamp: Timestamp,
    sink: std::sync::mpsc::SyncSender<RawDataPoint>,
    emitted: Ghost<Seq<RawDataPointV>>,
}

impl Collector {
    /// The stamp this collector gives each measurement.
    pub closed spec fn timestamp_spec(&self) -> Timestamp {
        self.timestamp
    }

    /// Everything collected through this handle, in emission order.
    pub closed spec fn emitted(&self) -> Seq<RawDataPointV> {
        self.emitted@
    }

    pub open spec fn wf(&self) -> bool {
        timestamp_ok(self.timestamp_spec())
    }

    /// Creates a collector over the given channel end, stamped with the
    /// current instant.
    pub fn new(sink: std::sync::mpsc::SyncSender<RawDataPoint>) -> (c: Collector)
        ensures
            c.wf(),
            c.emitted() == Seq::<RawDataPointV>::empty(),
    {
        let (secs, nanos) = utc_now_parts();
        Collector { timestamp: Timestamp { secs, nanos }, sink, emitted: Ghost(Seq::empty()) }
    }

    /// The stamp this collector gives each measurement.
    pub fn timestamp(&self) -> (t: Timestamp)
        ensures
            t == self.timestamp_spec(),
    {
        self.timestamp
    }

    /// Stamps a measurement with this collector's construction instant and
    /// pushes it onto the channel, blocking while the channel is full. Once
    /// the draining side is gone the measurement is dropped. The stamp
    /// never drifts: every emission of one collector carries the same one.
    pub fn collect(&mut self, location: &str, path: &str, component: &str, value: DataValue)
        ensures
            final(self).timestamp_spec() == old(self).timestamp_spec(),
            (final(self).emitted() =~= old(self).emitted().push(
                RawDataPointV {
                    location: location@,
                    path: path@,
                    component: component@,
                    timestamp: old(self).timestamp_spec(),
                    value: value@,
                },
            )),
    {
        let ghost record = RawDataPointV {
            location: location@,
            path: path@,
            component: component@,
            timestamp: self.timestamp,
            value: value@,
        };
        let point = make_data_point(location, path, component, self.timestamp, value);
        proof {
            assert(point@ == record);
            self.emitted = Ghost(self.emitted@.push(record));
        }
        let _delivered = channel_send(&self.sink, point);
    }
}

impl Collect for Collector {
    fn collect(&mut self, location: &str, path: &str, component: &str, value: DataValue) {
        Collector::collect(self, location, path, component, value);
    }
}

} // verus!
