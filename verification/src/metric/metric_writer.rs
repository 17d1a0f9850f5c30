//! The storage writer of one shard: when its live file is sealed, and what
//! is appended to it.
//!
//! The writer decides; its caller holds the files and carries the decisions
//! out.

use crate::bucket::{bucket_floor, bucket_of, has_bucket};
use crate::metric::{
    all_fit, lemma_stored_round_trip, parse_records, record_bytes, stored, Metric, MetricView,
};
use crate::names::{live_name, live_path, sealed_name, sealed_path};
use crate::wire::{fits_prefix, InvalidData};
use vstd::prelude::*;

verus! {

/// How long a writer waits for a sample before it looks at the clock again,
/// in seconds.
pub const RECEIVE_TIMEOUT_SECS: u64 = 5;

/// Owns the files of one shard.
pub struct MetricWriter {
    id: usize,
    metrics_root: String,
    current_time_slice: i64,
}

/// The sealing of a live file: `old_path` is renamed to `new_path`, and
/// `old_path` is then created anew, empty.
#[derive(Debug)]
pub struct FileSwap {
    pub old_path: String,
    pub new_path: String,
}

/// What waiting for a sample gave.
#[derive(Debug)]
pub enum Received {
    /// A sample to store.
    Metric(Metric),
    /// Nothing within the time waited.
    Timeout,
    /// Nothing, and nobody is left to send.
    Disconnected,
}

/// What the writer does about what it received. A live file that is to
/// be sealed is sealed first.
#[derive(Debug)]
pub enum WriterStep {
    /// The record is appended to the live file.
    Append { swap: Option<FileSwap>, record: Vec<u8> },
    /// Nothing is appended.
    Idle { swap: Option<FileSwap> },
    /// The writer ends its work.
    Stop,
}

impl MetricWriter {
    /// The shard whose files the writer owns.
    pub closed spec fn shard(&self) -> nat {
        self.id as nat
    }

    /// The directory that holds the shards' files.
    pub closed spec fn root(&self) -> Seq<char> {
        self.metrics_root@
    }

    /// The start of the bucket that the live file belongs to.
    pub closed spec fn bucket(&self) -> int {
        self.current_time_slice as int
    }

    /// The writer of shard `id` under `metrics_root`, started at the
    /// instant `now`. Its live file, to be created empty, belongs to the
    /// bucket that holds `now`.
    pub fn new(id: usize, metrics_root: String, now: i64) -> (writer: Self)
        requires
            has_bucket(now as int),
        ensures
            writer.shard() == id,
            writer.root() == metrics_root@,
            writer.bucket() == bucket_floor(now as int),
    {
        Self { id, metrics_root, current_time_slice: bucket_of(now) }
    }

    /// The name of the live file.
    pub fn live_file(&self) -> (path: String)
        ensures
            path@ == live_name(self.root(), self.shard()),
    {
        live_path(self.metrics_root.as_str(), self.id)
    }

    /// Looks at the clock, which reads `now`. Where `now` lies in another
    /// bucket than the live file's, the live file is sealed under the name
    /// of the bucket it belonged to, and the new live file belongs to the
    /// bucket that holds `now`.
    pub fn check_file_swap(&mut self, now: i64) -> (swap: Option<FileSwap>)
        requires
            has_bucket(now as int),
        ensures
            final(self).shard() == old(self).shard(),
            final(self).root() == old(self).root(),
            final(self).bucket() == bucket_floor(now as int),
            old(self).swap_is(swap, now),
    {
        let trunc_time: i64 = bucket_of(now);
        if self.current_time_slice != trunc_time {
            let old_path = live_path(self.metrics_root.as_str(), self.id);
            let new_path = sealed_path(
                self.metrics_root.as_str(),
                self.id,
                self.current_time_slice,
            );
            self.current_time_slice = trunc_time;
            Some(FileSwap { old_path, new_path })
        } else {
            None
        }
    }

    /// Stamps a sample with the instant `now` and gives the record to
    /// append to the live file. An identifier too long for its length
    /// prefix is refused.
    pub fn handle_metric(&self, metric: Metric, now: i64) -> (record: Result<Vec<u8>, InvalidData>)
        ensures
            fits_prefix(metric@.metric_id) ==> (record matches Ok(bytes) && bytes@ == record_bytes(
                stamped_at(metric@, now),
            )),
            !fits_prefix(metric@.metric_id) ==> record == Err::<Vec<u8>, InvalidData>(
                InvalidData::TooLong,
            ),
    {
        let stamped = Metric {
            metric_id: metric.metric_id,
            value: metric.value,
            timestamp: Some(now),
        };
        let mut bytes: Vec<u8> = Vec::new();
        match stamped.write_record(&mut bytes) {
            Ok(()) => {
                assert(bytes@ =~= record_bytes(stamped@));
                Ok(bytes)
            },
            Err(e) => Err(e),
        }
    }

    /// One turn of the writer's work on what waiting for a sample gave,
    /// the clock reading `now`. The writer looks at the clock before it
    /// stores a sample, and also where the wait ran out, so that the live
    /// file is sealed without traffic too; a sample is stamped with the
    /// same reading and its record appended. Once nobody is left to send,
    /// the writer stops, which is no error. A sample that has no record is
    /// refused, and the writer stays as it was.
    pub fn receive(&mut self, received: Received, now: i64) -> (step: Result<
        WriterStep,
        InvalidData,
    >)
        requires
            has_bucket(now as int),
        ensures
            final(self).shard() == old(self).shard(),
            final(self).root() == old(self).root(),
            match received {
                Received::Metric(metric) => if fits_prefix(metric@.metric_id) {
                    &&& step matches Ok(WriterStep::Append { swap, record })
                    &&& old(self).swap_is(swap, now)
                    &&& record@ == record_bytes(stamped_at(metric@, now))
                    &&& final(self).bucket() == bucket_floor(now as int)
                } else {
                    &&& step == Err::<WriterStep, InvalidData>(InvalidData::TooLong)
                    &&& final(self).bucket() == old(self).bucket()
                },
                Received::Timeout => {
                    &&& step matches Ok(WriterStep::Idle { swap })
                    &&& old(self).swap_is(swap, now)
                    &&& final(self).bucket() == bucket_floor(now as int)
                },
                Received::Disconnected => {
                    &&& step == Ok::<WriterStep, InvalidData>(WriterStep::Stop)
                    &&& final(self).bucket() == old(self).bucket()
                },
            },
    {
        match received {
            Received::Metric(metric) => match self.handle_metric(metric, now) {
                Ok(record) => {
                    let swap = self.check_file_swap(now);
                    Ok(WriterStep::Append { swap, record })
                },
                Err(e) => Err(e),
            },
            Received::Timeout => {
                let swap = self.check_file_swap(now);
                Ok(WriterStep::Idle { swap })
            },
            Received::Disconnected => Ok(WriterStep::Stop),
        }
    }

    /// Whether `swap` is what a look at the clock decides, the clock
    /// reading `now`: nothing where `now` lies in the bucket of the live
    /// file, and else the sealing of the live file under the name of that
    /// bucket.
    pub open spec fn swap_is(&self, swap: Option<FileSwap>, now: i64) -> bool {
        if self.bucket() == bucket_floor(now as int) {
            swap is None
        } else {
            &&& swap matches Some(s)
            &&& s.old_path@ == live_name(self.root(), self.shard())
            &&& s.new_path@ == sealed_name(self.root(), self.shard(), self.bucket() as i64)
        }
    }
}

/// The sample as it is stored at the instant `now`.
pub open spec fn stamped_at(m: MetricView, now: i64) -> MetricView {
    MetricView { timestamp: Some(now), ..m }
}

/// What a shard's files hold: the live file, and each sealed file under
/// the start of its bucket.
pub struct ShardFiles {
    pub live: Seq<u8>,
    pub sealed: Map<int, Seq<u8>>,
}

/// A shard as its writer leaves it: the bucket of the live file, and the
/// files.
pub struct Shard {
    pub bucket: int,
    pub files: ShardFiles,
}

/// What a writer receives, and when.
pub enum Event {
    /// The wait for a sample ran out, the clock reading `now`.
    Timeout { now: i64 },
    /// A sample came, the clock reading `now`.
    Metric { metric: MetricView, now: i64 },
}

impl Event {
    /// What the clock read.
    pub open spec fn at(self) -> i64 {
        match self {
            Event::Timeout { now } => now,
            Event::Metric { now, .. } => now,
        }
    }
}

/// The shard of a writer started at `now`: an empty live file, nothing
/// sealed.
pub open spec fn started(now: i64) -> Shard {
    Shard {
        bucket: bucket_floor(now as int),
        files: ShardFiles { live: Seq::empty(), sealed: Map::empty() },
    }
}

/// The shard after a look at the clock, carried out: where the clock reads
/// an instant of another bucket, the live file is sealed under the bucket
/// it belonged to, and an empty live file takes its place.
pub open spec fn rotated(shard: Shard, now: i64) -> Shard {
    if bucket_floor(now as int) == shard.bucket {
        shard
    } else {
        Shard {
            bucket: bucket_floor(now as int),
            files: ShardFiles {
                live: Seq::empty(),
                sealed: shard.files.sealed.insert(shard.bucket, shard.files.live),
            },
        }
    }
}

/// The shard after one turn of the writer, carried out: the look at the
/// clock, then the record of a sample that came, appended to the live
/// file.
pub open spec fn after(shard: Shard, event: Event) -> Shard {
    let turned = rotated(shard, event.at());
    match event {
        Event::Timeout { .. } => turned,
        Event::Metric { metric, now } => Shard {
            bucket: turned.bucket,
            files: ShardFiles {
                live: turned.files.live + record_bytes(stamped_at(metric, now)),
                sealed: turned.files.sealed,
            },
        },
    }
}

/// The shard after the events, in their order.
pub open spec fn after_all(shard: Shard, events: Seq<Event>) -> Shard
    decreases events.len(),
{
    if events.len() == 0 {
        shard
    } else {
        after(after_all(shard, events.drop_last()), events.last())
    }
}

/// The records of the samples that came at an instant of `bucket`, in the
/// order of their arrival.
pub open spec fn records_of(events: Seq<Event>, bucket: int) -> Seq<u8>
    decreases events.len(),
{
    if events.len() == 0 {
        Seq::empty()
    } else {
        records_of(events.drop_last(), bucket) + (match events.last() {
            Event::Metric { metric, now } => if bucket_floor(now as int) == bucket {
                record_bytes(stamped_at(metric, now))
            } else {
                Seq::empty()
            },
            Event::Timeout { .. } => Seq::empty(),
        })
    }
}

/// The buckets in which the writer looked at the clock, that of its start
/// among them.
pub open spec fn visited(start: i64, events: Seq<Event>) -> Set<int>
    decreases events.len(),
{
    if events.len() == 0 {
        set![bucket_floor(start as int)]
    } else {
        visited(start, events.drop_last()).insert(bucket_floor(events.last().at() as int))
    }
}

/// Whether the events follow the clock: no event lies before the start or
/// before an earlier event.
pub open spec fn orderly(start: i64, events: Seq<Event>) -> bool {
    &&& has_bucket(start as int)
    &&& forall|i: int| 0 <= i < events.len() ==> start <= (#[trigger] events[i]).at()
    &&& forall|i: int, j: int|
        0 <= i <= j < events.len() ==> (#[trigger] events[i]).at() <= (#[trigger] events[j]).at()
}

/// The samples that came at an instant of `bucket`, each as it was
/// stamped, in the order of their arrival.
pub open spec fn samples_of(events: Seq<Event>, bucket: int) -> Seq<MetricView>
    decreases events.len(),
{
    if events.len() == 0 {
        Seq::empty()
    } else {
        match events.last() {
            Event::Metric { metric, now } => if bucket_floor(now as int) == bucket {
                samples_of(events.drop_last(), bucket).push(stamped_at(metric, now))
            } else {
                samples_of(events.drop_last(), bucket)
            },
            Event::Timeout { .. } => samples_of(events.drop_last(), bucket),
        }
    }
}

/// Whether every sample that came has a record.
pub open spec fn all_storable(events: Seq<Event>) -> bool {
    forall|i: int|
        0 <= i < events.len() ==> ((#[trigger] events[i]) matches Event::Metric { metric, .. }
            ==> fits_prefix(metric.metric_id))
}

/// The records of a bucket are those of its samples, stored one after the
/// other.
pub proof fn lemma_records_of_samples(events: Seq<Event>, bucket: int)
    ensures
        records_of(events, bucket) == stored(samples_of(events, bucket)),
    decreases events.len(),
{
    if events.len() > 0 {
        lemma_records_of_samples(events.drop_last(), bucket);
        let before = samples_of(events.drop_last(), bucket);
        match events.last() {
            Event::Metric { metric, now } => {
                if bucket_floor(now as int) == bucket {
                    let sample = stamped_at(metric, now);
                    assert(before.push(sample).drop_last() =~= before);
                    assert(before.push(sample).last() == sample);
                } else {
                    assert(records_of(events, bucket) =~= records_of(events.drop_last(), bucket));
                }
            },
            Event::Timeout { .. } => {
                assert(records_of(events, bucket) =~= records_of(events.drop_last(), bucket));
            },
        }
    }
}

/// The samples of a bucket are stamped and storable where all that came
/// are.
proof fn lemma_samples_of(events: Seq<Event>, bucket: int)
    requires
        all_storable(events),
    ensures
        all_fit(samples_of(events, bucket)),
        samples_of(events, bucket).map_values(|m: MetricView| m.stamped()) == samples_of(
            events,
            bucket,
        ),
    decreases events.len(),
{
    let stamp = |m: MetricView| m.stamped();
    if events.len() > 0 {
        let earlier = events.drop_last();
        assert(all_storable(earlier)) by {
            assert forall|i: int| 0 <= i < earlier.len() implies ((
            #[trigger] earlier[i]) matches Event::Metric { metric, .. } ==> fits_prefix(
                metric.metric_id,
            )) by {
                assert(earlier[i] == events[i]);
            }
        }
        lemma_samples_of(earlier, bucket);
        let before = samples_of(earlier, bucket);
        assert(events[events.len() - 1] == events.last());
        match events.last() {
            Event::Metric { metric, now } => {
                if bucket_floor(now as int) == bucket {
                    let sample = stamped_at(metric, now);
                    assert(sample.stamped() == sample);
                    assert(before.push(sample).map_values(stamp) =~= before.map_values(
                        stamp,
                    ).push(sample));
                }
            },
            Event::Timeout { .. } => {},
        }
    } else {
        assert(samples_of(events, bucket).map_values(stamp) =~= samples_of(events, bucket));
    }
}

/// What a writer stores, a reader finds. After events that follow the
/// clock, of samples that all have a record, each sealed file is read back
/// as the samples that came at an instant of its bucket, each with its
/// stamp, all of them and no others, in the order of their arrival; and so
/// is the live file, for the bucket that the writer is in.
pub proof fn lemma_stored_is_found(start: i64, events: Seq<Event>)
    requires
        orderly(start, events),
        all_storable(events),
    ensures
        ({
            let shard = after_all(started(start), events);
            &&& parse_records(shard.files.live) == samples_of(events, shard.bucket)
            &&& forall|b: int| #[trigger]
                shard.files.sealed.dom().contains(b) ==> parse_records(shard.files.sealed[b])
                    == samples_of(events, b)
        }),
{
    let shard = after_all(started(start), events);
    lemma_rotation(start, events);
    lemma_records_of_samples(events, shard.bucket);
    lemma_samples_of(events, shard.bucket);
    lemma_stored_round_trip(samples_of(events, shard.bucket));
    assert forall|b: int| #[trigger] shard.files.sealed.dom().contains(b) implies parse_records(
        shard.files.sealed[b],
    ) == samples_of(events, b) by {
        lemma_records_of_samples(events, b);
        lemma_samples_of(events, b);
        lemma_stored_round_trip(samples_of(events, b));
    }
}

/// Rotation keeps the buckets apart. After events that follow the clock,
/// there is one sealed file for each bucket that the writer has left, each
/// sealed file holds the records of the samples that came at an instant of
/// its bucket, all of them and no others, in the order of their arrival,
/// and the live file holds those of the bucket that the writer is in.
pub proof fn lemma_rotation(start: i64, events: Seq<Event>)
    requires
        orderly(start, events),
    ensures
        ({
            let shard = after_all(started(start), events);
            &&& shard.files.live == records_of(events, shard.bucket)
            &&& shard.files.sealed.dom() == visited(start, events).remove(shard.bucket)
            &&& forall|b: int| #[trigger]
                shard.files.sealed.dom().contains(b) ==> shard.files.sealed[b] == records_of(
                    events,
                    b,
                )
        }),
{
    lemma_rotation_step(start, events);
}

/// The induction behind `lemma_rotation`: also, the writer is in the
/// latest bucket it has visited, which is that of its latest event, and no
/// sample came in a bucket after that.
proof fn lemma_rotation_step(start: i64, events: Seq<Event>)
    requires
        orderly(start, events),
    ensures
        ({
            let shard = after_all(started(start), events);
            &&& shard.files.live == records_of(events, shard.bucket)
            &&& shard.files.sealed.dom() == visited(start, events).remove(shard.bucket)
            &&& forall|b: int| #[trigger]
                shard.files.sealed.dom().contains(b) ==> shard.files.sealed[b] == records_of(
                    events,
                    b,
                )
            &&& visited(start, events).contains(shard.bucket)
            &&& forall|b: int| #[trigger] visited(start, events).contains(b) ==> b <= shard.bucket
            &&& forall|b: int| b > shard.bucket ==> #[trigger] records_of(events, b) == Seq::<
                u8,
            >::empty()
            &&& events.len() == 0 ==> shard.bucket == bucket_floor(start as int)
            &&& events.len() > 0 ==> shard.bucket == bucket_floor(events.last().at() as int)
        }),
    decreases events.len(),
{
    if events.len() > 0 {
        let before = events.drop_last();
        let last = events.last();
        assert(orderly(start, before)) by {
            assert forall|i: int| 0 <= i < before.len() implies start <= (
            #[trigger] before[i]).at() by {
                assert(before[i] == events[i]);
            }
            assert forall|i: int, j: int| 0 <= i <= j < before.len() implies (
            #[trigger] before[i]).at() <= (#[trigger] before[j]).at() by {
                assert(before[i] == events[i]);
                assert(before[j] == events[j]);
            }
        }
        lemma_rotation_step(start, before);
        let prev = after_all(started(start), before);
        let turned = rotated(prev, last.at());
        let shard = after_all(started(start), events);
        assert(shard == after(prev, last));
        assert(start <= last.at());
        if before.len() > 0 {
            assert(before.last() == events[events.len() - 2]);
            assert(events[events.len() - 2].at() <= events[events.len() - 1].at());
        }
        assert(prev.bucket <= bucket_floor(last.at() as int));
        assert(shard.bucket == bucket_floor(last.at() as int));
        if turned.bucket != prev.bucket {
            assert(shard.files.sealed.dom() =~= visited(start, events).remove(shard.bucket));
            assert(records_of(before, shard.bucket) == Seq::<u8>::empty());
        } else {
            assert(visited(start, events) =~= visited(start, before));
        }
        assert forall|b: int| #[trigger]
            shard.files.sealed.dom().contains(b) implies shard.files.sealed[b] == records_of(
            events,
            b,
        ) by {
            if turned.bucket != prev.bucket && b == prev.bucket {
                assert(shard.files.sealed[b] == prev.files.live);
            } else {
                assert(prev.files.sealed.dom().contains(b));
            }
            assert(b != shard.bucket);
            assert(records_of(events, b) =~= records_of(before, b));
        }
        assert forall|b: int| b > shard.bucket implies #[trigger] records_of(events, b) == Seq::<
            u8,
        >::empty() by {
            assert(records_of(before, b) == Seq::<u8>::empty());
            assert(records_of(events, b) =~= records_of(before, b));
        }
        assert(shard.files.live =~= records_of(events, shard.bucket));
    } else {
        let shard = after_all(started(start), events);
        assert(shard.files.sealed.dom() =~= visited(start, events).remove(shard.bucket));
    }
}

} // verus!
