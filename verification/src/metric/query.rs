//! Queries: their parameters, their byte form, and the windows into which a
//! query divides the samples it is run on.

use crate::metric::{Metric, MetricView};
use crate::single::{is_zero, single_is_zero, single_whole_seconds, whole_seconds};
use crate::wire::{
    carries_on, fits_prefix, i64_be, lemma_i64_carries_on, lemma_i64_round_trip,
    lemma_text_carries_on, lemma_text_round_trip, lemma_u32_carries_on, lemma_u32_round_trip,
    lemma_u8_carries_on, parse_i64, parse_text, parse_u32, parse_u8, put_i64, put_text, put_u32,
    read_i64, read_text, read_u32, read_u8, text_bytes, u32_be, InvalidData,
};
use vstd::prelude::*;

verus! {

/// The tag byte of `Avg`: the letter `a`.
pub const TAG_AVG: u8 = 0x61;

/// The tag byte of `Min`: the letter `m`.
pub const TAG_MIN: u8 = 0x6d;

/// The tag byte of `Max`: the letter `M`.
pub const TAG_MAX: u8 = 0x4d;

/// The tag byte of `Count`: the letter `c`.
pub const TAG_COUNT: u8 = 0x63;

/// The flag byte before a date range: the letter `Y`.
pub const RANGE_GIVEN: u8 = 0x59;

/// The flag byte in place of a date range: the letter `N`.
pub const RANGE_ABSENT: u8 = 0x4e;

/// How the samples of a window become one number.
#[derive(Clone, Copy, Debug, PartialEq, Eq, Structural)]
pub enum QueryAggregation {
    Avg,
    Min,
    Max,
    Count,
}

/// A pair of instants, in seconds since the epoch: from and to, both
/// included.
pub type DateRange = (i64, i64);

/// What a query asks for.
#[derive(Debug)]
pub struct QueryParams {
    /// The metric whose samples are asked for.
    pub metric_id: String,
    /// The instants between which samples are looked for; without it, the
    /// whole history.
    pub date_range: Option<DateRange>,
    /// How each window is aggregated.
    pub aggregation: QueryAggregation,
    /// The length of a window in seconds, as the 32 bits of an IEEE-754
    /// single. Zero asks for one aggregate over all samples.
    pub window_secs: u32,
}

/// What a `QueryParams` holds.
pub struct QueryParamsView {
    pub metric_id: Seq<char>,
    pub date_range: Option<DateRange>,
    pub aggregation: QueryAggregation,
    pub window_secs: u32,
}

impl View for QueryParams {
    type V = QueryParamsView;

    open spec fn view(&self) -> QueryParamsView {
        QueryParamsView {
            metric_id: self.metric_id@,
            date_range: self.date_range,
            aggregation: self.aggregation,
            window_secs: self.window_secs,
        }
    }
}

/// The tag byte of an aggregation.
pub open spec fn aggregation_tag(aggregation: QueryAggregation) -> u8 {
    match aggregation {
        QueryAggregation::Avg => TAG_AVG,
        QueryAggregation::Min => TAG_MIN,
        QueryAggregation::Max => TAG_MAX,
        QueryAggregation::Count => TAG_COUNT,
    }
}

/// Reads an aggregation tag from the front of `s`.
pub open spec fn parse_aggregation(s: Seq<u8>) -> Result<QueryAggregation, InvalidData> {
    match parse_u8(s) {
        Err(e) => Err(e),
        Ok(tag) => if tag == TAG_AVG {
            Ok(QueryAggregation::Avg)
        } else if tag == TAG_MIN {
            Ok(QueryAggregation::Min)
        } else if tag == TAG_MAX {
            Ok(QueryAggregation::Max)
        } else if tag == TAG_COUNT {
            Ok(QueryAggregation::Count)
        } else {
            Err(InvalidData::BadAggregation)
        },
    }
}

/// A date range on the wire: `Y` and the two instants, or `N` alone.
pub open spec fn range_bytes(range: Option<DateRange>) -> Seq<u8> {
    match range {
        Some((from, to)) => seq![RANGE_GIVEN] + i64_be(from) + i64_be(to),
        None => seq![RANGE_ABSENT],
    }
}

/// Reads a date range from the front of `s`: the range and the number of
/// bytes it took.
pub open spec fn parse_range(s: Seq<u8>) -> Result<(Option<DateRange>, nat), InvalidData> {
    match parse_u8(s) {
        Err(e) => Err(e),
        Ok(flag) => if flag == RANGE_ABSENT {
            Ok((None, 1))
        } else if flag == RANGE_GIVEN {
            match parse_i64(s.skip(1)) {
                Err(e) => Err(e),
                Ok(from) => match parse_i64(s.skip(9)) {
                    Err(e) => Err(e),
                    Ok(to) => Ok((Some((from, to)), 17)),
                },
            }
        } else {
            Err(InvalidData::BadRangeFlag)
        },
    }
}

/// A query on the wire: the identifier behind its length, the date range,
/// the aggregation tag, the window length.
pub open spec fn query_bytes(q: QueryParamsView) -> Seq<u8> {
    text_bytes(q.metric_id) + range_bytes(q.date_range) + seq![aggregation_tag(q.aggregation)]
        + u32_be(q.window_secs)
}

/// Reads a query from the front of `s`: the query and the number of bytes
/// it took.
pub open spec fn parse_query(s: Seq<u8>) -> Result<(QueryParamsView, nat), InvalidData> {
    match parse_text(s) {
        Err(e) => Err(e),
        Ok((metric_id, n1)) => match parse_range(s.skip(n1 as int)) {
            Err(e) => Err(e),
            Ok((date_range, n2)) => match parse_aggregation(s.skip((n1 + n2) as int)) {
                Err(e) => Err(e),
                Ok(aggregation) => match parse_u32(s.skip((n1 + n2 + 1) as int)) {
                    Err(e) => Err(e),
                    Ok(window_secs) => Ok(
                        (
                            QueryParamsView { metric_id, date_range, aggregation, window_secs },
                            n1 + n2 + 5,
                        ),
                    ),
                },
            },
        },
    }
}

/// Decoding a date range gives back the range that was encoded, and leaves
/// what followed it.
pub proof fn lemma_range_round_trip(range: Option<DateRange>, rest: Seq<u8>)
    ensures
        parse_range(range_bytes(range) + rest) == Ok::<(Option<DateRange>, nat), InvalidData>(
            (range, range_bytes(range).len()),
        ),
        (range_bytes(range) + rest).skip(range_bytes(range).len() as int) == rest,
{
    let s = range_bytes(range) + rest;
    match range {
        None => {
            assert(s[0] == RANGE_ABSENT);
            assert(s.skip(1) =~= rest);
        },
        Some((from, to)) => {
            let tail = i64_be(to) + rest;
            assert(s[0] == RANGE_GIVEN);
            lemma_i64_round_trip(from, tail);
            lemma_i64_round_trip(to, rest);
            assert(s.skip(1) =~= i64_be(from) + tail);
            assert(s.skip(9) =~= tail);
            assert(s.skip(17) =~= rest);
        },
    }
}

/// Decoding a query gives back the query that was encoded, and leaves what
/// followed it.
pub proof fn lemma_query_round_trip(q: QueryParamsView, rest: Seq<u8>)
    requires
        fits_prefix(q.metric_id),
    ensures
        parse_query(query_bytes(q) + rest) == Ok::<(QueryParamsView, nat), InvalidData>(
            (q, query_bytes(q).len()),
        ),
        (query_bytes(q) + rest).skip(query_bytes(q).len() as int) == rest,
{
    let s = query_bytes(q) + rest;
    let t3 = u32_be(q.window_secs) + rest;
    let t2 = seq![aggregation_tag(q.aggregation)] + t3;
    let t1 = range_bytes(q.date_range) + t2;
    let n1 = text_bytes(q.metric_id).len();
    let n2 = range_bytes(q.date_range).len();
    assert(s =~= text_bytes(q.metric_id) + t1);
    lemma_text_round_trip(q.metric_id, t1);
    lemma_range_round_trip(q.date_range, t2);
    lemma_u32_round_trip(q.window_secs, rest);
    assert(s.skip(n1 as int) == t1);
    assert(s.skip((n1 + n2) as int) =~= t1.skip(n2 as int));
    assert(t2[0] == aggregation_tag(q.aggregation));
    assert(s.skip((n1 + n2 + 1) as int) =~= t3);
    assert(s.skip(query_bytes(q).len() as int) =~= rest);
}

/// Reading a date range goes by the front of the bytes alone, and takes
/// no more bytes than there are.
pub proof fn lemma_range_carries_on(s: Seq<u8>, more: Seq<u8>)
    ensures
        carries_on(parse_range(s), parse_range(s + more), more.len()),
        parse_range(s) matches Ok((_, taken)) ==> taken <= s.len() && (s + more).skip(taken as int)
            == s.skip(taken as int) + more,
{
    lemma_u8_carries_on(s, more);
    if s.len() >= 1 {
        assert((s + more).skip(1) =~= s.skip(1) + more);
        lemma_i64_carries_on(s.skip(1), more);
        if s.len() >= 9 {
            assert((s + more).skip(9) =~= s.skip(9) + more);
            lemma_i64_carries_on(s.skip(9), more);
            if s.len() >= 17 {
                assert((s + more).skip(17) =~= s.skip(17) + more);
            }
        }
    }
}

/// Reading a query goes by the front of the bytes alone, and takes no more
/// bytes than there are.
pub proof fn lemma_query_carries_on(s: Seq<u8>, more: Seq<u8>)
    ensures
        carries_on(parse_query(s), parse_query(s + more), more.len()),
        parse_query(s) matches Ok((_, taken)) ==> taken <= s.len() && (s + more).skip(taken as int)
            == s.skip(taken as int) + more,
{
    lemma_text_carries_on(s, more);
    if let Ok((_, n1)) = parse_text(s) {
        let after_id = s.skip(n1 as int);
        lemma_range_carries_on(after_id, more);
        if let Ok((_, n2)) = parse_range(after_id) {
            let after_range = s.skip((n1 + n2) as int);
            assert(after_id.skip(n2 as int) =~= after_range);
            assert((s + more).skip((n1 + n2) as int) =~= after_range + more);
            lemma_u8_carries_on(after_range, more);
            if after_range.len() >= 1 {
                let after_tag = s.skip((n1 + n2 + 1) as int);
                assert((s + more).skip((n1 + n2 + 1) as int) =~= after_tag + more);
                lemma_u32_carries_on(after_tag, more);
                if after_tag.len() >= 4 {
                    assert((s + more).skip((n1 + n2 + 5) as int) =~= s.skip((n1 + n2 + 5) as int)
                        + more);
                }
            }
        }
    }
}

impl QueryAggregation {
    /// The tag byte of the aggregation.
    pub fn tag(self) -> (tag: u8)
        ensures
            tag == aggregation_tag(self),
    {
        match self {
            QueryAggregation::Avg => TAG_AVG,
            QueryAggregation::Min => TAG_MIN,
            QueryAggregation::Max => TAG_MAX,
            QueryAggregation::Count => TAG_COUNT,
        }
    }
}

/// Reads the aggregation tag at `at`.
fn read_aggregation(bytes: &[u8], at: usize) -> (r: Result<QueryAggregation, InvalidData>)
    requires
        at <= bytes.len(),
    ensures
        r == parse_aggregation(bytes@.skip(at as int)),
{
    let tag = match read_u8(bytes, at) {
        Ok(tag) => tag,
        Err(e) => { return Err(e); },
    };
    if tag == TAG_AVG {
        Ok(QueryAggregation::Avg)
    } else if tag == TAG_MIN {
        Ok(QueryAggregation::Min)
    } else if tag == TAG_MAX {
        Ok(QueryAggregation::Max)
    } else if tag == TAG_COUNT {
        Ok(QueryAggregation::Count)
    } else {
        Err(InvalidData::BadAggregation)
    }
}

/// Reads the date range at `at`: the range and the offset of the byte
/// after it.
fn read_range(bytes: &[u8], at: usize) -> (r: Result<(Option<DateRange>, usize), InvalidData>)
    requires
        at <= bytes.len(),
    ensures
        match parse_range(bytes@.skip(at as int)) {
            Ok((range, taken)) => r == Ok::<(Option<DateRange>, usize), InvalidData>(
                (range, (at + taken) as usize),
            ) && at + taken <= bytes.len(),
            Err(e) => r == Err::<(Option<DateRange>, usize), InvalidData>(e),
        },
{
    let ghost s = bytes@.skip(at as int);
    let flag = match read_u8(bytes, at) {
        Ok(flag) => flag,
        Err(e) => { return Err(e); },
    };
    if flag == RANGE_ABSENT {
        Ok((None, at + 1))
    } else if flag == RANGE_GIVEN {
        assert(s.skip(1) =~= bytes@.skip(at + 1));
        let from = match read_i64(bytes, at + 1) {
            Ok(from) => from,
            Err(e) => { return Err(e); },
        };
        assert(s.skip(9) =~= bytes@.skip(at + 9));
        let to = match read_i64(bytes, at + 9) {
            Ok(to) => to,
            Err(e) => { return Err(e); },
        };
        Ok((Some((from, to)), at + 17))
    } else {
        Err(InvalidData::BadRangeFlag)
    }
}

impl QueryParams {
    /// Reads the query that starts at `at`: the query and the offset of the
    /// byte after it.
    pub(crate) fn read_at(bytes: &[u8], at: usize) -> (r: Result<(QueryParams, usize), InvalidData>)
        requires
            at <= bytes.len(),
        ensures
            match parse_query(bytes@.skip(at as int)) {
                Ok((q, taken)) => r matches Ok((v, end)) && v@ == q && end == at + taken,
                Err(e) => r == Err::<(QueryParams, usize), InvalidData>(e),
            },
    {
        let ghost s = bytes@.skip(at as int);
        let (metric_id, after_id) = match read_text(bytes, at) {
            Ok(found) => found,
            Err(e) => { return Err(e); },
        };
        assert(s.skip(after_id - at) =~= bytes@.skip(after_id as int));
        let (date_range, after_range) = match read_range(bytes, after_id) {
            Ok(found) => found,
            Err(e) => { return Err(e); },
        };
        assert(s.skip(after_range - at) =~= bytes@.skip(after_range as int));
        let aggregation = match read_aggregation(bytes, after_range) {
            Ok(aggregation) => aggregation,
            Err(e) => { return Err(e); },
        };
        assert(s.skip(after_range - at + 1) =~= bytes@.skip(after_range + 1));
        let window_secs = match read_u32(bytes, after_range + 1) {
            Ok(window_secs) => window_secs,
            Err(e) => { return Err(e); },
        };
        Ok((QueryParams { metric_id, date_range, aggregation, window_secs }, after_range + 5))
    }

    /// Decodes a query from the front of `stream`: the query and the number
    /// of bytes read. Bytes that are no query give the reason, and a query
    /// cut short the number of bytes that the field it was cut in still
    /// needs.
    pub fn from_stream(stream: &[u8]) -> (r: Result<(QueryParams, usize), InvalidData>)
        ensures
            match parse_query(stream@) {
                Ok((q, taken)) => r matches Ok((v, read)) && v@ == q && read == taken,
                Err(e) => r == Err::<(QueryParams, usize), InvalidData>(e),
            },
    {
        assert(stream@.skip(0) =~= stream@);
        QueryParams::read_at(stream, 0)
    }

    /// Appends the query's bytes to `stream`. An identifier too long for
    /// its length prefix is refused, and nothing is appended.
    pub fn write_to(&self, stream: &mut Vec<u8>) -> (r: Result<(), InvalidData>)
        ensures
            fits_prefix(self@.metric_id) ==> r is Ok && final(stream)@ == old(stream)@
                + query_bytes(self@),
            !fits_prefix(self@.metric_id) ==> r == Err::<(), InvalidData>(InvalidData::TooLong)
                && final(stream)@ == old(stream)@,
    {
        match put_text(stream, self.metric_id.as_str()) {
            Ok(()) => {},
            Err(e) => { return Err(e); },
        }
        match self.date_range {
            Some((from, to)) => {
                stream.push(RANGE_GIVEN);
                put_i64(stream, from);
                put_i64(stream, to);
            },
            None => {
                stream.push(RANGE_ABSENT);
            },
        }
        assert(stream@ =~= old(stream)@ + text_bytes(self@.metric_id) + range_bytes(
            self@.date_range,
        ));
        stream.push(self.aggregation.tag());
        put_u32(stream, self.window_secs);
        assert(stream@ =~= old(stream)@ + query_bytes(self@));
        Ok(())
    }
}

/// A run of consecutive samples that is aggregated into one number: those
/// at the positions from `start` up to, not including, `end`.
#[derive(Clone, Copy, Debug, PartialEq, Eq, Structural)]
pub struct Window {
    pub start: usize,
    pub end: usize,
}

/// The instants of the samples, in order.
pub open spec fn timestamps(metrics: Seq<Metric>) -> Seq<int> {
    metrics.map_values(|m: Metric| m@.stamp() as int)
}

/// Whether every sample has a timestamp.
pub open spec fn all_stamped(metrics: Seq<Metric>) -> bool {
    forall|i: int| 0 <= i < metrics.len() ==> (#[trigger] metrics[i]).timestamp is Some
}

/// Where the window that opens at `first` ends, looking from `i` on: at
/// the first sample that lies more than `span` seconds after the one at
/// `first`, or at the end of the samples.
pub open spec fn window_end(ts: Seq<int>, span: int, first: int, i: int) -> int
    decreases ts.len() - i,
{
    if i >= ts.len() {
        ts.len() as int
    } else if ts[i] - span > ts[first] {
        i
    } else {
        window_end(ts, span, first, i + 1)
    }
}

/// The tumbling windows over the samples from `from` on. A window opens at
/// the first sample that the window before it does not hold, and holds
/// every sample up to the first that lies more than `span` seconds after
/// the one it opened at.
pub open spec fn tumbling(ts: Seq<int>, span: int, from: int) -> Seq<Window>
    decreases ts.len() - from,
{
    if from < 0 || from >= ts.len() {
        Seq::empty()
    } else {
        let end = window_end(ts, span, from, from + 1);
        proof {
            lemma_window_end_bounds(ts, span, from, from + 1);
        }
        seq![Window { start: from as usize, end: end as usize }] + tumbling(ts, span, end)
    }
}

/// The one window over `count` samples taken whole. No samples give no
/// window, unless they are to be counted.
pub open spec fn whole(aggregation: QueryAggregation, count: nat) -> Seq<Window> {
    if count == 0 && aggregation != QueryAggregation::Count {
        Seq::empty()
    } else {
        seq![Window { start: 0, end: count as usize }]
    }
}

/// The windows into which a query with this aggregation and window length
/// divides samples taken at the instants `ts`.
pub open spec fn windows(aggregation: QueryAggregation, window_secs: u32, ts: Seq<int>) -> Seq<
    Window,
> {
    if is_zero(window_secs) {
        whole(aggregation, ts.len())
    } else {
        tumbling(ts, whole_seconds(window_secs) as int, 0)
    }
}

/// A window ends after the sample it was looked for from, and not after
/// the last one.
pub proof fn lemma_window_end_bounds(ts: Seq<int>, span: int, first: int, i: int)
    requires
        i <= ts.len(),
    ensures
        i <= window_end(ts, span, first, i) <= ts.len(),
    decreases ts.len() - i,
{
    if i < ts.len() && !(ts[i] - span > ts[first]) {
        lemma_window_end_bounds(ts, span, first, i + 1);
    }
}

/// Whether every sample of the window after its first lies at most `span`
/// seconds after the first.
pub open spec fn holds_together(ts: Seq<int>, span: int, w: Window) -> bool {
    forall|j: int| w.start < j < w.end ==> (#[trigger] ts[j]) - span <= ts[w.start as int]
}

/// Whether the window `next` follows the window `w` as tumbling windows do:
/// it opens where `w` ends, at a sample that lies more than `span` seconds
/// after the first of `w`.
pub open spec fn follows(ts: Seq<int>, span: int, w: Window, next: Window) -> bool {
    w.end == next.start && ts[next.start as int] - span > ts[w.start as int]
}

/// Whether `w` divides the samples from `from` on into tumbling windows:
/// the windows follow one another from `from` up to the last sample, none
/// is empty, and each holds together.
pub open spec fn divides(ts: Seq<int>, span: int, from: int, w: Seq<Window>) -> bool {
    &&& from == ts.len() <==> w.len() == 0
    &&& w.len() > 0 ==> w[0].start == from && w.last().end == ts.len()
    &&& forall|k: int|
        0 <= k < w.len() ==> (#[trigger] w[k]).start < w[k].end && holds_together(ts, span, w[k])
    &&& forall|k: int, l: int|
        0 <= k && l == k + 1 && l < w.len() ==> follows(ts, span, #[trigger] w[k], #[trigger] w[l])
}

/// The tumbling windows divide the samples.
pub proof fn lemma_tumbling_divides(ts: Seq<int>, span: int, from: int)
    requires
        0 <= from <= ts.len() <= usize::MAX,
    ensures
        divides(ts, span, from, tumbling(ts, span, from)),
    decreases ts.len() - from,
{
    if from < ts.len() {
        let end = window_end(ts, span, from, from + 1);
        lemma_window_end_bounds(ts, span, from, from + 1);
        lemma_window_end_holds(ts, span, from, from + 1);
        lemma_tumbling_divides(ts, span, end);
        let head = Window { start: from as usize, end: end as usize };
        let rest = tumbling(ts, span, end);
        let w = tumbling(ts, span, from);
        assert(w == seq![head] + rest);
        assert(w[0] == head);
        assert(holds_together(ts, span, head));
        assert forall|k: int| 0 <= k < w.len() implies (#[trigger] w[k]).start < w[k].end
            && holds_together(ts, span, w[k]) by {
            if k > 0 {
                assert(w[k] == rest[k - 1]);
            }
        }
        assert forall|k: int, l: int| 0 <= k && l == k + 1 && l < w.len() implies follows(
            ts,
            span,
            #[trigger] w[k],
            #[trigger] w[l],
        ) by {
            assert(w[l] == rest[k]);
            if k > 0 {
                assert(w[k] == rest[k - 1]);
                assert(follows(ts, span, rest[k - 1], rest[k]));
            }
        }
        if rest.len() > 0 {
            assert(w.last() == rest.last());
        }
    }
}

/// No sample between `i` and the end of the window lies more than `span`
/// seconds after the window's first, and the sample at the end, if there
/// is one, does.
pub proof fn lemma_window_end_holds(ts: Seq<int>, span: int, first: int, i: int)
    requires
        0 <= first < i <= ts.len(),
    ensures
        forall|j: int|
            i <= j < window_end(ts, span, first, i) ==> (#[trigger] ts[j]) - span <= ts[first],
        window_end(ts, span, first, i) < ts.len() ==> ts[window_end(ts, span, first, i)] - span
            > ts[first],
    decreases ts.len() - i,
{
    if i < ts.len() && !(ts[i] - span > ts[first]) {
        lemma_window_end_holds(ts, span, first, i + 1);
    }
}

/// A window ends where the samples say: at `end`, where no sample from `i`
/// up to `end` lies more than `span` seconds after the window's first, and
/// the sample at `end`, if there is one, does.
pub proof fn lemma_window_end_is(ts: Seq<int>, span: int, first: int, i: int, end: int)
    requires
        0 <= i <= end <= ts.len(),
        forall|j: int| i <= j < end ==> (#[trigger] ts[j]) - span <= ts[first],
        end < ts.len() ==> ts[end] - span > ts[first],
    ensures
        window_end(ts, span, first, i) == end,
    decreases end - i,
{
    if i < end {
        assert(ts[i] - span <= ts[first]);
        lemma_window_end_is(ts, span, first, i + 1, end);
    }
}

/// Of windows that divide the samples from `from` on, the first is the
/// first tumbling window, and the others divide the samples from its end
/// on.
proof fn lemma_divides_head(ts: Seq<int>, span: int, from: int, w: Seq<Window>)
    requires
        0 <= from < ts.len() <= usize::MAX,
        divides(ts, span, from, w),
    ensures
        w.len() > 0,
        w[0] == (Window {
            start: from as usize,
            end: window_end(ts, span, from, from + 1) as usize,
        }),
        from < w[0].end <= ts.len(),
        w[0].end == window_end(ts, span, from, from + 1),
        divides(ts, span, w[0].end as int, w.skip(1)),
{
    let head = w[0];
    let rest = w.skip(1);
    let end = head.end as int;
    assert(head.start < head.end && holds_together(ts, span, head));
    if w.len() > 1 {
        assert(rest[0] == w[1]);
        assert(follows(ts, span, w[0], w[1]));
        assert(w[1].start < w[1].end);
        assert(rest.last() == w.last());
        assert(rest.last().end == ts.len());
        lemma_starts_in_bounds(ts, span, from, w, 1);
    } else {
        assert(w.last() == head);
    }
    lemma_window_end_is(ts, span, from, from + 1, end);
    assert forall|k: int| 0 <= k < rest.len() implies (#[trigger] rest[k]).start < rest[k].end
        && holds_together(ts, span, rest[k]) by {
        assert(rest[k] == w[k + 1]);
    }
    assert forall|k: int, l: int| 0 <= k && l == k + 1 && l < rest.len() implies follows(
        ts,
        span,
        #[trigger] rest[k],
        #[trigger] rest[l],
    ) by {
        assert(rest[k] == w[k + 1]);
        assert(rest[l] == w[l + 1]);
        assert(follows(ts, span, w[k + 1], w[l + 1]));
    }
}

/// Windows that divide the samples open before the last sample's end.
proof fn lemma_starts_in_bounds(ts: Seq<int>, span: int, from: int, w: Seq<Window>, k: int)
    requires
        divides(ts, span, from, w),
        0 <= k < w.len(),
    ensures
        w[k].start < ts.len(),
    decreases w.len() - k,
{
    assert(w[k].start < w[k].end);
    if k < w.len() - 1 {
        lemma_starts_in_bounds(ts, span, from, w, k + 1);
        assert(follows(ts, span, w[k], w[k + 1]));
    } else {
        assert(w.last() == w[k]);
    }
}

/// The samples are divided in one way only: windows that divide them are
/// the tumbling windows.
pub proof fn lemma_divides_once(ts: Seq<int>, span: int, from: int, w: Seq<Window>)
    requires
        0 <= from <= ts.len() <= usize::MAX,
        divides(ts, span, from, w),
    ensures
        w == tumbling(ts, span, from),
    decreases ts.len() - from,
{
    if from < ts.len() {
        lemma_divides_head(ts, span, from, w);
        lemma_divides_once(ts, span, w[0].end as int, w.skip(1));
        assert(w =~= seq![w[0]] + w.skip(1));
    } else {
        assert(w =~= tumbling(ts, span, from));
    }
}

impl QueryParams {
    /// Divides the samples, taken in the order given, into the windows that
    /// the query aggregates: one window over all of them where the window
    /// length is zero, tumbling windows of that many whole seconds
    /// otherwise. Tumbling windows go by the samples' timestamps.
    pub fn process_metrics(&self, metrics: &Vec<Metric>) -> (found: Vec<Window>)
        requires
            !is_zero(self.window_secs) ==> all_stamped(metrics@),
        ensures
            found@ == windows(self.aggregation, self.window_secs, timestamps(metrics@)),
    {
        let mut found: Vec<Window> = Vec::new();
        let count: usize = metrics.len();
        let ghost ts = timestamps(metrics@);
        if single_is_zero(self.window_secs) {
            let counted: bool = match self.aggregation {
                QueryAggregation::Count => true,
                _ => false,
            };
            if count > 0 || counted {
                found.push(Window { start: 0, end: count });
            }
            assert(found@ =~= whole(self.aggregation, ts.len()));
            return found;
        }
        if count == 0 {
            assert(found@ =~= tumbling(ts, whole_seconds(self.window_secs) as int, 0));
            return found;
        }
        let span: i64 = single_whole_seconds(self.window_secs);
        let mut first: usize = 0;
        let mut opened: i64 = stamp_of(&metrics[0]);
        let mut i: usize = 1;
        while i < count
            invariant
                count == metrics.len(),
                ts == timestamps(metrics@),
                0 <= first < i <= count,
                opened == ts[first as int],
                found@ + tumbling(ts, span as int, first as int) == tumbling(ts, span as int, 0),
                window_end(ts, span as int, first as int, first + 1) == window_end(
                    ts,
                    span as int,
                    first as int,
                    i as int,
                ),
            decreases count - i,
        {
            let at: i64 = stamp_of(&metrics[i]);
            if at as i128 - span as i128 > opened as i128 {
                proof {
                    lemma_window_end_bounds(ts, span as int, i as int, i + 1);
                }
                assert(found@.push(Window { start: first, end: i }) + tumbling(
                    ts,
                    span as int,
                    i as int,
                ) =~= found@ + tumbling(ts, span as int, first as int));
                found.push(Window { start: first, end: i });
                first = i;
                opened = at;
            }
            i += 1;
        }
        assert(tumbling(ts, span as int, count as int) =~= Seq::<Window>::empty());
        assert(found@.push(Window { start: first, end: count }) =~= found@ + tumbling(
            ts,
            span as int,
            first as int,
        ));
        found.push(Window { start: first, end: count });
        found
    }
}

/// The instant of a sample: its timestamp, or the epoch where it has none.
fn stamp_of(metric: &Metric) -> (t: i64)
    ensures
        t == metric@.stamp(),
{
    match metric.timestamp {
        Some(t) => t,
        None => 0,
    }
}

/// A query as a client writes it down: the date range in words, each
/// instant as year, month, day, hour, minute and second.
#[derive(Debug)]
pub struct QueryParamsSerializable {
    pub metric_id: String,
    pub date_range: Option<(String, String)>,
    pub aggregation: QueryAggregation,
    /// The length of a window in seconds, as the 32 bits of an IEEE-754
    /// single.
    pub window_secs: u32,
}

/// The seconds from the epoch to the date and time that `chrono` reads
/// from a text in the format `%Y-%m-%d %H:%M:%S`, taken as UTC; nothing
/// where it reads none.
pub uninterp spec fn datetime_read(text: Seq<char>) -> Option<i64>;

/// `chrono::NaiveDateTime::parse_from_str` with the format
/// `%Y-%m-%d %H:%M:%S`: the date and time that it reads from `text`, as
/// seconds from the epoch in UTC, or nothing where it refuses the text.
/// The result depends on the text alone.
#[verifier::external_body]
fn read_datetime(text: &str) -> (instant: Option<i64>)
    ensures
        instant == datetime_read(text@),
{
    match chrono::NaiveDateTime::parse_from_str(text, "%Y-%m-%d %H:%M:%S") {
        Ok(read) => Some(read.and_utc().timestamp()),
        Err(_) => None,
    }
}

/// The range between two instants that were read, where both were.
pub open spec fn range_between(from: Option<i64>, to: Option<i64>) -> Option<DateRange> {
    match (from, to) {
        (Some(from), Some(to)) => Some((from, to)),
        _ => None,
    }
}

/// The range between two instants, where both are there.
pub fn date_range_of(from: Option<i64>, to: Option<i64>) -> (range: Option<DateRange>)
    ensures
        range == range_between(from, to),
{
    match (from, to) {
        (Some(from), Some(to)) => Some((from, to)),
        _ => None,
    }
}

/// The date range written as the two texts `from` and `to`, where both
/// are read as a date and time.
pub fn parse_date_range(from: &str, to: &str) -> (range: Option<DateRange>)
    ensures
        range == range_between(datetime_read(from@), datetime_read(to@)),
{
    date_range_of(read_datetime(from), read_datetime(to))
}

impl QueryParamsSerializable {
    /// The query that was written down, with `range` for its date range.
    pub open spec fn as_query(self, range: Option<DateRange>) -> QueryParamsView {
        QueryParamsView {
            metric_id: self.metric_id@,
            date_range: range,
            aggregation: self.aggregation,
            window_secs: self.window_secs,
        }
    }

    /// The query that was written down, with `range` for its date range.
    pub fn with_range(&self, range: Option<DateRange>) -> (query: QueryParams)
        ensures
            query@ == self.as_query(range),
    {
        QueryParams {
            metric_id: self.metric_id.clone(),
            date_range: range,
            aggregation: self.aggregation,
            window_secs: self.window_secs,
        }
    }

    /// The query that was written down: without a date range where none
    /// was written, with the range that was read where both of its ends
    /// are read as a date and time, and nothing where one of them is not.
    pub fn to_query_params(&self) -> (query: Option<QueryParams>)
        ensures
            self.date_range is None ==> (query matches Some(q) && q@ == self.as_query(None)),
            self.date_range matches Some((from, to)) ==> (match range_between(
                datetime_read(from@),
                datetime_read(to@),
            ) {
                Some(range) => query matches Some(q) && q@ == self.as_query(Some(range)),
                None => query is None,
            }),
    {
        match &self.date_range {
            Some((from, to)) => match parse_date_range(from.as_str(), to.as_str()) {
                Some(range) => Some(self.with_range(Some(range))),
                None => None,
            },
            None => Some(self.with_range(None)),
        }
    }
}

} // verus!
