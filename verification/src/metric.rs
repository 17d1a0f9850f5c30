//! Metric samples and their two byte forms: the payload of an insert, and
//! the record that a shard keeps.

use crate::metric::query::{
    lemma_query_carries_on, lemma_query_round_trip, parse_query, query_bytes, QueryParams,
    QueryParamsView,
};
use crate::wire::{
    carries_on, fits_prefix, i64_be, lemma_i64_round_trip, lemma_text_carries_on,
    lemma_text_round_trip, lemma_u32_carries_on, lemma_u32_round_trip, lemma_u8_carries_on,
    parse_i64, parse_text, parse_u32, parse_u8, put_i64, put_text, put_u32, read_i64, read_text,
    read_u32, read_u8, text_bytes, u32_be, InvalidData,
};
use vstd::prelude::*;

pub mod metric_writer;
pub mod query;
pub mod query_handler;

verus! {

/// One sample of a metric.
#[derive(Debug)]
pub struct Metric {
    /// The metric that was sampled.
    pub metric_id: String,
    /// The sample, as the 32 bits of an IEEE-754 single.
    pub value: u32,
    /// When the sample was stored, in seconds since the epoch. A sample
    /// that was not stored yet has none.
    pub timestamp: Option<i64>,
}

/// What a `Metric` holds.
pub struct MetricView {
    pub metric_id: Seq<char>,
    pub value: u32,
    pub timestamp: Option<i64>,
}

impl View for Metric {
    type V = MetricView;

    open spec fn view(&self) -> MetricView {
        MetricView { metric_id: self.metric_id@, value: self.value, timestamp: self.timestamp }
    }
}

impl MetricView {
    /// The same sample, not stored yet.
    pub open spec fn unstamped(self) -> MetricView {
        MetricView { timestamp: None, ..self }
    }

    /// The instant written into the sample's record: its timestamp, or the
    /// epoch where it has none.
    pub open spec fn stamp(self) -> i64 {
        match self.timestamp {
            Some(t) => t,
            None => 0,
        }
    }

    /// The same sample as its record gives it back.
    pub open spec fn stamped(self) -> MetricView {
        MetricView { timestamp: Some(self.stamp()), ..self }
    }
}

/// The payload of an insert: the identifier behind its length, then the
/// value. The timestamp does not travel.
pub open spec fn metric_bytes(m: MetricView) -> Seq<u8> {
    text_bytes(m.metric_id) + u32_be(m.value)
}

/// Reads the payload of an insert from the front of `s`: the sample and
/// the number of bytes it took.
pub open spec fn parse_metric(s: Seq<u8>) -> Result<(MetricView, nat), InvalidData> {
    match parse_text(s) {
        Err(e) => Err(e),
        Ok((metric_id, taken)) => match parse_u32(s.skip(taken as int)) {
            Err(e) => Err(e),
            Ok(value) => Ok((MetricView { metric_id, value, timestamp: None }, taken + 4)),
        },
    }
}

/// A stored record: the payload of an insert, then the instant of storage
/// in eight bytes.
pub open spec fn record_bytes(m: MetricView) -> Seq<u8> {
    metric_bytes(m) + i64_be(m.stamp())
}

/// Reads a stored record from the front of `s`: the sample and the number
/// of bytes it took.
pub open spec fn parse_record(s: Seq<u8>) -> Result<(MetricView, nat), InvalidData> {
    match parse_metric(s) {
        Err(e) => Err(e),
        Ok((m, taken)) => match parse_i64(s.skip(taken as int)) {
            Err(e) => Err(e),
            Ok(t) => Ok((MetricView { timestamp: Some(t), ..m }, taken + 8)),
        },
    }
}

/// The records at the front of `s`, up to its end or to the first bytes
/// that are no record.
pub open spec fn parse_records(s: Seq<u8>) -> Seq<MetricView>
    decreases s.len(),
{
    match parse_record(s) {
        Err(_) => Seq::empty(),
        Ok((m, taken)) => if 0 < taken <= s.len() {
            seq![m] + parse_records(s.skip(taken as int))
        } else {
            Seq::empty()
        },
    }
}

/// The samples of `metrics`, as what they hold.
pub open spec fn views(metrics: Seq<Metric>) -> Seq<MetricView> {
    metrics.map_values(|m: Metric| m@)
}

/// Decoding the payload of an insert gives back the sample that was
/// encoded, without its timestamp, and leaves what followed it.
pub proof fn lemma_metric_round_trip(m: MetricView, rest: Seq<u8>)
    requires
        fits_prefix(m.metric_id),
    ensures
        parse_metric(metric_bytes(m) + rest) == Ok::<(MetricView, nat), InvalidData>(
            (m.unstamped(), metric_bytes(m).len()),
        ),
        (metric_bytes(m) + rest).skip(metric_bytes(m).len() as int) == rest,
{
    let s = metric_bytes(m) + rest;
    let id = text_bytes(m.metric_id);
    let tail = u32_be(m.value) + rest;
    assert(s =~= id + tail);
    lemma_text_round_trip(m.metric_id, tail);
    lemma_u32_round_trip(m.value, rest);
    assert(s.skip(metric_bytes(m).len() as int) =~= rest);
}

/// Decoding a record gives back the sample that was encoded, stamped, and
/// leaves what followed it.
pub proof fn lemma_record_round_trip(m: MetricView, rest: Seq<u8>)
    requires
        fits_prefix(m.metric_id),
    ensures
        parse_record(record_bytes(m) + rest) == Ok::<(MetricView, nat), InvalidData>(
            (m.stamped(), record_bytes(m).len()),
        ),
        (record_bytes(m) + rest).skip(record_bytes(m).len() as int) == rest,
{
    let s = record_bytes(m) + rest;
    let tail = i64_be(m.stamp()) + rest;
    assert(s =~= metric_bytes(m) + tail);
    lemma_metric_round_trip(m, tail);
    lemma_i64_round_trip(m.stamp(), rest);
    assert(s.skip(record_bytes(m).len() as int) =~= rest);
}

/// The bytes of a file to which the records of `samples` were appended one
/// after the other.
pub open spec fn stored(samples: Seq<MetricView>) -> Seq<u8>
    decreases samples.len(),
{
    if samples.len() == 0 {
        Seq::empty()
    } else {
        stored(samples.drop_last()) + record_bytes(samples.last())
    }
}

/// Whether every sample has an identifier that fits its length prefix.
pub open spec fn all_fit(samples: Seq<MetricView>) -> bool {
    forall|i: int| 0 <= i < samples.len() ==> fits_prefix((#[trigger] samples[i]).metric_id)
}

/// Records that follow a record are read after it.
proof fn lemma_records_after_record(m: MetricView, rest: Seq<u8>)
    requires
        fits_prefix(m.metric_id),
    ensures
        parse_records(record_bytes(m) + rest) == seq![m.stamped()] + parse_records(rest),
{
    lemma_record_round_trip(m, rest);
    lemma_parse_record_in_bounds(record_bytes(m) + rest);
}

/// Bytes that follow stored samples are read after them.
proof fn lemma_records_after_stored(samples: Seq<MetricView>, rest: Seq<u8>)
    requires
        all_fit(samples),
    ensures
        parse_records(stored(samples) + rest) == samples.map_values(|m: MetricView| m.stamped())
            + parse_records(rest),
    decreases samples.len(),
{
    let stamp = |m: MetricView| m.stamped();
    if samples.len() == 0 {
        assert(stored(samples) + rest =~= rest);
        assert(samples.map_values(stamp) + parse_records(rest) =~= parse_records(rest));
    } else {
        let before = samples.drop_last();
        let last = samples.last();
        assert(all_fit(before)) by {
            assert forall|i: int| 0 <= i < before.len() implies fits_prefix(
                (#[trigger] before[i]).metric_id,
            ) by {
                assert(before[i] == samples[i]);
            }
        }
        lemma_records_after_stored(before, record_bytes(last) + rest);
        lemma_records_after_record(last, rest);
        assert(stored(samples) + rest =~= stored(before) + (record_bytes(last) + rest));
        assert(samples.map_values(stamp) =~= before.map_values(stamp) + seq![last.stamped()]);
        assert(before.map_values(stamp) + (seq![last.stamped()] + parse_records(rest))
            =~= samples.map_values(stamp) + parse_records(rest));
    }
}

/// What is stored record after record is read back record after record:
/// a file to which the records of samples were appended gives back those
/// samples, each stamped, all of them and in their order.
pub proof fn lemma_stored_round_trip(samples: Seq<MetricView>)
    requires
        all_fit(samples),
    ensures
        parse_records(stored(samples)) == samples.map_values(|m: MetricView| m.stamped()),
{
    let none = Seq::<u8>::empty();
    lemma_records_after_stored(samples, none);
    assert(stored(samples) + none =~= stored(samples));
    assert(parse_records(none) =~= Seq::<MetricView>::empty());
    assert(samples.map_values(|m: MetricView| m.stamped()) + Seq::<MetricView>::empty()
        =~= samples.map_values(|m: MetricView| m.stamped()));
}

/// Reading the payload of an insert goes by the front of the bytes alone,
/// and takes no more bytes than there are.
pub proof fn lemma_metric_carries_on(s: Seq<u8>, more: Seq<u8>)
    ensures
        carries_on(parse_metric(s), parse_metric(s + more), more.len()),
        parse_metric(s) matches Ok((_, taken)) ==> taken <= s.len() && (s + more).skip(
            taken as int,
        ) == s.skip(taken as int) + more,
{
    lemma_text_carries_on(s, more);
    if let Ok((_, n)) = parse_text(s) {
        let rest = s.skip(n as int);
        lemma_u32_carries_on(rest, more);
        if rest.len() >= 4 {
            assert((s + more).skip((n + 4) as int) =~= s.skip((n + 4) as int) + more);
        }
    }
}

impl Metric {
    /// A sample that was not stored yet.
    pub fn new(metric_id: String, value: u32) -> (m: Metric)
        ensures
            m@ == (MetricView { metric_id: metric_id@, value, timestamp: None }),
    {
        Metric { metric_id, value, timestamp: None }
    }

    /// Reads the payload of an insert that starts at `at`: the sample and
    /// the offset of the byte after it.
    pub(crate) fn read_at(bytes: &[u8], at: usize) -> (r: Result<(Metric, usize), InvalidData>)
        requires
            at <= bytes.len(),
        ensures
            match parse_metric(bytes@.skip(at as int)) {
                Ok((m, taken)) => r matches Ok((v, end)) && v@ == m && end == at + taken,
                Err(e) => r == Err::<(Metric, usize), InvalidData>(e),
            },
    {
        let (metric_id, after_id) = match read_text(bytes, at) {
            Ok(found) => found,
            Err(e) => { return Err(e); },
        };
        assert(bytes@.skip(at as int).skip(after_id - at) =~= bytes@.skip(after_id as int));
        let value = match read_u32(bytes, after_id) {
            Ok(value) => value,
            Err(e) => { return Err(e); },
        };
        Ok((Metric { metric_id, value, timestamp: None }, after_id + 4))
    }

    /// Reads the record that starts at `at`: the sample and the offset of
    /// the byte after it.
    pub(crate) fn read_record_at(bytes: &[u8], at: usize) -> (r: Result<
        (Metric, usize),
        InvalidData,
    >)
        requires
            at <= bytes.len(),
        ensures
            match parse_record(bytes@.skip(at as int)) {
                Ok((m, taken)) => r matches Ok((v, end)) && v@ == m && end == at + taken,
                Err(e) => r == Err::<(Metric, usize), InvalidData>(e),
            },
    {
        let (payload, after) = match Metric::read_at(bytes, at) {
            Ok(found) => found,
            Err(e) => { return Err(e); },
        };
        assert(bytes@.skip(at as int).skip(after - at) =~= bytes@.skip(after as int));
        let stamp = match read_i64(bytes, after) {
            Ok(stamp) => stamp,
            Err(e) => { return Err(e); },
        };
        Ok(
            (
                Metric { metric_id: payload.metric_id, value: payload.value, timestamp: Some(stamp) },
                after + 8,
            ),
        )
    }

    /// Decodes the payload of an insert from the front of `stream`: the
    /// sample, which has no timestamp, and the number of bytes read. Bytes
    /// that are no payload give the reason, and a payload cut short the
    /// number of bytes that the field it was cut in still needs.
    pub fn from_stream(stream: &[u8]) -> (r: Result<(Metric, usize), InvalidData>)
        ensures
            match parse_metric(stream@) {
                Ok((m, taken)) => r matches Ok((v, read)) && v@ == m && read == taken,
                Err(e) => r == Err::<(Metric, usize), InvalidData>(e),
            },
    {
        assert(stream@.skip(0) =~= stream@);
        Metric::read_at(stream, 0)
    }

    /// Appends the payload of an insert to `stream`. An identifier too long
    /// for its length prefix is refused, and nothing is appended.
    pub fn write_to(&self, stream: &mut Vec<u8>) -> (r: Result<(), InvalidData>)
        ensures
            fits_prefix(self@.metric_id) ==> r is Ok && final(stream)@ == old(stream)@
                + metric_bytes(self@),
            !fits_prefix(self@.metric_id) ==> r == Err::<(), InvalidData>(InvalidData::TooLong)
                && final(stream)@ == old(stream)@,
    {
        match put_text(stream, self.metric_id.as_str()) {
            Ok(()) => {},
            Err(e) => { return Err(e); },
        }
        put_u32(stream, self.value);
        assert(stream@ =~= old(stream)@ + metric_bytes(self@));
        Ok(())
    }

    /// Decodes a stored record from the front of `stream`: the sample with
    /// its timestamp, and the number of bytes read.
    pub fn from_record(stream: &[u8]) -> (r: Result<(Metric, usize), InvalidData>)
        ensures
            match parse_record(stream@) {
                Ok((m, taken)) => r matches Ok((v, read)) && v@ == m && read == taken,
                Err(e) => r == Err::<(Metric, usize), InvalidData>(e),
            },
    {
        assert(stream@.skip(0) =~= stream@);
        Metric::read_record_at(stream, 0)
    }

    /// Appends the sample's record to `stream`; a sample without a
    /// timestamp is recorded at the epoch. An identifier too long for its
    /// length prefix is refused, and nothing is appended.
    pub fn write_record(&self, stream: &mut Vec<u8>) -> (r: Result<(), InvalidData>)
        ensures
            fits_prefix(self@.metric_id) ==> r is Ok && final(stream)@ == old(stream)@
                + record_bytes(self@),
            !fits_prefix(self@.metric_id) ==> r == Err::<(), InvalidData>(InvalidData::TooLong)
                && final(stream)@ == old(stream)@,
    {
        match self.write_to(stream) {
            Ok(()) => {},
            Err(e) => { return Err(e); },
        }
        let stamp: i64 = match self.timestamp {
            Some(t) => t,
            None => 0,
        };
        put_i64(stream, stamp);
        assert(stream@ =~= old(stream)@ + record_bytes(self@));
        Ok(())
    }
}

/// Reads the records of one bucket file, front to back.
pub struct MetricIterator<'a> {
    source: &'a [u8],
    position: usize,
}

impl<'a> View for MetricIterator<'a> {
    type V = Seq<u8>;

    /// The bytes not read yet.
    closed spec fn view(&self) -> Seq<u8> {
        if self.position <= self.source.len() {
            self.source@.skip(self.position as int)
        } else {
            Seq::empty()
        }
    }
}

impl<'a> MetricIterator<'a> {
    /// An iterator over the records in `source`.
    pub fn new(source: &'a [u8]) -> (it: Self)
        ensures
            it@ == source@,
    {
        let it = Self { source, position: 0 };
        assert(it.source@.skip(0) =~= it.source@);
        it
    }

    /// The record at the front of what is not read yet, or nothing where
    /// the bytes end or are no record; what is not a record is never
    /// passed over.
    pub fn next(&mut self) -> (item: Option<Metric>)
        ensures
            match parse_record(old(self)@) {
                Ok((m, taken)) => item matches Some(v) && v@ == m && final(self)@ == old(
                    self,
                )@.skip(taken as int),
                Err(_) => item is None && final(self)@ == old(self)@,
            },
    {
        if self.position > self.source.len() {
            assert(parse_record(self@) is Err);
            return None;
        }
        match Metric::read_record_at(self.source, self.position) {
            Ok((metric, end)) => {
                proof {
                    lemma_parse_record_in_bounds(old(self)@);
                    assert(old(self)@.skip(end - self.position) =~= self.source@.skip(end as int));
                }
                self.position = end;
                Some(metric)
            },
            Err(_) => None,
        }
    }

    /// Every record from the front of what is not read yet, in order, up to
    /// the end or to the first bytes that are no record.
    pub fn read_all(&mut self) -> (records: Vec<Metric>)
        ensures
            views(records@) == parse_records(old(self)@),
            forall|i: int| 0 <= i < records.len() ==> (#[trigger] records[i]).timestamp is Some,
    {
        let mut records: Vec<Metric> = Vec::new();
        loop
            invariant
                views(records@) + parse_records(self@) == parse_records(old(self)@),
                forall|i: int| 0 <= i < records.len() ==> (#[trigger] records[i]).timestamp is Some,
            ensures
                views(records@) == parse_records(old(self)@),
            decreases self@.len(),
        {
            let ghost before = self@;
            let ghost sofar = records@;
            proof {
                lemma_parse_record_in_bounds(before);
            }
            match self.next() {
                Some(metric) => {
                    records.push(metric);
                    assert(views(records@) =~= views(sofar) + seq![metric@]);
                    assert(views(records@) + parse_records(self@) =~= views(sofar)
                        + parse_records(before));
                },
                None => {
                    assert(parse_records(before) =~= Seq::<MetricView>::empty());
                    assert(views(records@) + parse_records(before) =~= views(records@));
                    break;
                },
            }
        }
        records
    }
}

/// A record takes at least its fixed fields and at most the bytes there are.
pub proof fn lemma_parse_record_in_bounds(s: Seq<u8>)
    ensures
        parse_record(s) matches Ok((m, taken)) ==> 16 <= taken <= s.len() && m.timestamp is Some,
{
}

/// The tag byte of an insert: the letter `I`.
pub const ACTION_INSERT: u8 = 0x49;

/// The tag byte of a query: the letter `Q`.
pub const ACTION_QUERY: u8 = 0x51;

/// What a client asks of the service: the one unit that crosses the wire.
#[derive(Debug)]
pub enum MetricAction {
    /// Store a sample.
    Insert(Metric),
    /// Aggregate stored samples.
    Query(QueryParams),
}

/// What a `MetricAction` holds.
pub enum MetricActionView {
    Insert(MetricView),
    Query(QueryParamsView),
}

impl View for MetricAction {
    type V = MetricActionView;

    open spec fn view(&self) -> MetricActionView {
        match self {
            MetricAction::Insert(m) => MetricActionView::Insert(m@),
            MetricAction::Query(q) => MetricActionView::Query(q@),
        }
    }
}

impl MetricActionView {
    /// The metric that the action is about.
    pub open spec fn metric_id(self) -> Seq<char> {
        match self {
            MetricActionView::Insert(m) => m.metric_id,
            MetricActionView::Query(q) => q.metric_id,
        }
    }

    /// The action as decoding gives it back: a sample to insert comes
    /// without a timestamp.
    pub open spec fn on_arrival(self) -> MetricActionView {
        match self {
            MetricActionView::Insert(m) => MetricActionView::Insert(m.unstamped()),
            MetricActionView::Query(q) => MetricActionView::Query(q),
        }
    }
}

/// An action on the wire: its tag, then its payload.
pub open spec fn action_bytes(a: MetricActionView) -> Seq<u8> {
    match a {
        MetricActionView::Insert(m) => seq![ACTION_INSERT] + metric_bytes(m),
        MetricActionView::Query(q) => seq![ACTION_QUERY] + query_bytes(q),
    }
}

/// Reads an action from the front of `s`: the action and the number of
/// bytes it took.
pub open spec fn parse_action(s: Seq<u8>) -> Result<(MetricActionView, nat), InvalidData> {
    match parse_u8(s) {
        Err(e) => Err(e),
        Ok(tag) => if tag == ACTION_INSERT {
            match parse_metric(s.skip(1)) {
                Err(e) => Err(e),
                Ok((m, taken)) => Ok((MetricActionView::Insert(m), taken + 1)),
            }
        } else if tag == ACTION_QUERY {
            match parse_query(s.skip(1)) {
                Err(e) => Err(e),
                Ok((q, taken)) => Ok((MetricActionView::Query(q), taken + 1)),
            }
        } else {
            Err(InvalidData::BadAction)
        },
    }
}

/// Decoding an action gives back the action that was encoded, a sample
/// without its timestamp, and leaves what followed it.
pub proof fn lemma_action_round_trip(a: MetricActionView, rest: Seq<u8>)
    requires
        fits_prefix(a.metric_id()),
    ensures
        parse_action(action_bytes(a) + rest) == Ok::<(MetricActionView, nat), InvalidData>(
            (a.on_arrival(), action_bytes(a).len()),
        ),
        (action_bytes(a) + rest).skip(action_bytes(a).len() as int) == rest,
{
    let s = action_bytes(a) + rest;
    match a {
        MetricActionView::Insert(m) => {
            lemma_metric_round_trip(m, rest);
            assert(s[0] == ACTION_INSERT);
            assert(s.skip(1) =~= metric_bytes(m) + rest);
        },
        MetricActionView::Query(q) => {
            lemma_query_round_trip(q, rest);
            assert(s[0] == ACTION_QUERY);
            assert(s.skip(1) =~= query_bytes(q) + rest);
        },
    }
    assert(s.skip(action_bytes(a).len() as int) =~= rest);
}

/// Decoding an action goes by the front of the bytes alone. Bytes that
/// come behind an action, or behind bytes that are none, change nothing;
/// and while fewer bytes have come than an action cut short was missing,
/// it is still cut short, of the rest.
pub proof fn lemma_action_carries_on(s: Seq<u8>, more: Seq<u8>)
    ensures
        carries_on(parse_action(s), parse_action(s + more), more.len()),
{
    lemma_u8_carries_on(s, more);
    if s.len() >= 1 {
        assert((s + more).skip(1) =~= s.skip(1) + more);
        lemma_metric_carries_on(s.skip(1), more);
        lemma_query_carries_on(s.skip(1), more);
    }
}

impl MetricAction {
    /// Decodes an action from the front of `stream`: the action and the
    /// number of bytes read. The tag is read first and decides which
    /// payload follows. Bytes that are no action give the reason, and an
    /// action cut short the number of bytes that the field it was cut in
    /// still needs.
    pub fn from_stream(stream: &[u8]) -> (r: Result<(MetricAction, usize), InvalidData>)
        ensures
            match parse_action(stream@) {
                Ok((a, taken)) => r matches Ok((v, read)) && v@ == a && read == taken,
                Err(e) => r == Err::<(MetricAction, usize), InvalidData>(e),
            },
    {
        assert(stream@.skip(0) =~= stream@);
        let tag = match read_u8(stream, 0) {
            Ok(tag) => tag,
            Err(e) => { return Err(e); },
        };
        if tag == ACTION_INSERT {
            match Metric::read_at(stream, 1) {
                Ok((metric, end)) => Ok((MetricAction::Insert(metric), end)),
                Err(e) => Err(e),
            }
        } else if tag == ACTION_QUERY {
            match QueryParams::read_at(stream, 1) {
                Ok((query, end)) => Ok((MetricAction::Query(query), end)),
                Err(e) => Err(e),
            }
        } else {
            Err(InvalidData::BadAction)
        }
    }

    /// Appends the action's bytes to `stream`. An identifier too long for
    /// its length prefix is refused, and nothing is appended.
    pub fn write_to(&self, stream: &mut Vec<u8>) -> (r: Result<(), InvalidData>)
        ensures
            fits_prefix(self@.metric_id()) ==> r is Ok && final(stream)@ == old(stream)@
                + action_bytes(self@),
            !fits_prefix(self@.metric_id()) ==> r == Err::<(), InvalidData>(InvalidData::TooLong)
                && final(stream)@ == old(stream)@,
    {
        let mut payload: Vec<u8> = Vec::new();
        match self {
            MetricAction::Insert(metric) => {
                match metric.write_to(&mut payload) {
                    Ok(()) => {},
                    Err(e) => { return Err(e); },
                }
                stream.push(ACTION_INSERT);
            },
            MetricAction::Query(query) => {
                match query.write_to(&mut payload) {
                    Ok(()) => {},
                    Err(e) => { return Err(e); },
                }
                stream.push(ACTION_QUERY);
            },
        }
        stream.append(&mut payload);
        assert(stream@ =~= old(stream)@ + action_bytes(self@));
        Ok(())
    }
}

} // verus!
