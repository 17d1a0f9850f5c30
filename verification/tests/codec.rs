use metric_alert_service::metric::query::{QueryAggregation, QueryParams};
use metric_alert_service::metric::{Metric, MetricAction, MetricIterator};
use metric_alert_service::wire::InvalidData;

fn sample(id: &str, value: f32) -> Metric {
    Metric::new(id.to_string(), value.to_bits())
}

#[test]
fn insert_payload_has_the_documented_layout() {
    let mut out = Vec::new();
    sample("cpu", 1.5).write_to(&mut out).unwrap();
    let mut expected = vec![0u8, 0, 0, 3, b'c', b'p', b'u'];
    expected.extend_from_slice(&1.5f32.to_be_bytes());
    assert_eq!(out, expected);
}

#[test]
fn insert_payload_round_trips_without_timestamp() {
    let mut metric = sample("héllo", -2.25);
    metric.timestamp = Some(77);
    let mut out = vec![9u8];
    metric.write_to(&mut out).unwrap();
    let (back, read) = Metric::from_stream(&out[1..]).unwrap();
    assert_eq!(read, out.len() - 1);
    assert_eq!(back.metric_id, "héllo");
    assert_eq!(f32::from_bits(back.value), -2.25);
    assert_eq!(back.timestamp, None);
}

#[test]
fn record_round_trips_with_timestamp() {
    let mut metric = sample("disk", 3.0);
    metric.timestamp = Some(-5);
    let mut out = Vec::new();
    metric.write_record(&mut out).unwrap();
    assert_eq!(&out[out.len() - 8..], &(-5i64).to_be_bytes());
    let (back, read) = Metric::from_record(&out).unwrap();
    assert_eq!(read, out.len());
    assert_eq!(back.metric_id, "disk");
    assert_eq!(back.value, 3.0f32.to_bits());
    assert_eq!(back.timestamp, Some(-5));
}

#[test]
fn record_without_timestamp_is_written_at_the_epoch() {
    let mut out = Vec::new();
    sample("x", 0.0).write_record(&mut out).unwrap();
    let (back, _) = Metric::from_record(&out).unwrap();
    assert_eq!(back.timestamp, Some(0));
}

#[test]
fn short_payload_says_how_much_is_missing() {
    assert_eq!(Metric::from_stream(&[]).unwrap_err(), InvalidData::ShortRead(4));
    assert_eq!(Metric::from_stream(&[0, 0]).unwrap_err(), InvalidData::ShortRead(2));
    assert_eq!(Metric::from_stream(&[0, 0, 0, 5, b'a']).unwrap_err(), InvalidData::ShortRead(4));
    assert_eq!(
        Metric::from_stream(&[0, 0, 0, 1, b'a', 0, 0]).unwrap_err(),
        InvalidData::ShortRead(2)
    );
}

#[test]
fn identifier_that_is_not_utf8_is_refused() {
    let bytes = [0u8, 0, 0, 2, 0xff, 0xfe, 0, 0, 0, 0];
    assert_eq!(Metric::from_stream(&bytes).unwrap_err(), InvalidData::BadText);
}

#[test]
fn query_has_the_documented_layout() {
    let query = QueryParams {
        metric_id: "m".to_string(),
        date_range: Some((1, 2)),
        aggregation: QueryAggregation::Max,
        window_secs: 10.0f32.to_bits(),
    };
    let mut out = Vec::new();
    query.write_to(&mut out).unwrap();
    let mut expected = vec![0u8, 0, 0, 1, b'm', b'Y'];
    expected.extend_from_slice(&1i64.to_be_bytes());
    expected.extend_from_slice(&2i64.to_be_bytes());
    expected.push(b'M');
    expected.extend_from_slice(&10.0f32.to_be_bytes());
    assert_eq!(out, expected);
}

#[test]
fn query_round_trips() {
    for (range, aggregation) in [
        (None, QueryAggregation::Avg),
        (Some((i64::MIN, i64::MAX)), QueryAggregation::Min),
        (Some((-1, 0)), QueryAggregation::Max),
        (Some((1_700_000_000, 1_700_000_060)), QueryAggregation::Count),
    ] {
        let query = QueryParams {
            metric_id: "latency.p99".to_string(),
            date_range: range,
            aggregation,
            window_secs: 2.5f32.to_bits(),
        };
        let mut out = Vec::new();
        query.write_to(&mut out).unwrap();
        out.push(0xab);
        let (back, read) = QueryParams::from_stream(&out).unwrap();
        assert_eq!(read, out.len() - 1);
        assert_eq!(back.metric_id, "latency.p99");
        assert_eq!(back.date_range, range);
        assert_eq!(back.aggregation, aggregation);
        assert_eq!(back.window_secs, 2.5f32.to_bits());
    }
}

#[test]
fn query_with_bad_flag_or_tag_is_refused() {
    let bad_flag = [0u8, 0, 0, 0, b'X', b'a', 0, 0, 0, 0];
    assert_eq!(QueryParams::from_stream(&bad_flag).unwrap_err(), InvalidData::BadRangeFlag);
    let bad_tag = [0u8, 0, 0, 0, b'N', b'z', 0, 0, 0, 0];
    assert_eq!(QueryParams::from_stream(&bad_tag).unwrap_err(), InvalidData::BadAggregation);
    let cut_range = [0u8, 0, 0, 0, b'Y', 0, 0, 0];
    assert_eq!(QueryParams::from_stream(&cut_range).unwrap_err(), InvalidData::ShortRead(5));
}

#[test]
fn action_round_trips() {
    let mut out = Vec::new();
    MetricAction::Insert(sample("a", 1.0)).write_to(&mut out).unwrap();
    assert_eq!(out[0], b'I');
    match MetricAction::from_stream(&out).unwrap() {
        (MetricAction::Insert(m), read) => {
            assert_eq!(read, out.len());
            assert_eq!(m.metric_id, "a");
            assert_eq!(m.value, 1.0f32.to_bits());
        }
        _ => panic!("an insert was encoded"),
    }
    let query = QueryParams {
        metric_id: "a".to_string(),
        date_range: None,
        aggregation: QueryAggregation::Count,
        window_secs: 0,
    };
    let mut out = Vec::new();
    MetricAction::Query(query).write_to(&mut out).unwrap();
    assert_eq!(out[0], b'Q');
    match MetricAction::from_stream(&out).unwrap() {
        (MetricAction::Query(q), read) => {
            assert_eq!(read, out.len());
            assert_eq!(q.aggregation, QueryAggregation::Count);
            assert_eq!(q.date_range, None);
        }
        _ => panic!("a query was encoded"),
    }
}

#[test]
fn action_with_unknown_tag_is_refused() {
    assert_eq!(MetricAction::from_stream(&[b'Z', 0, 0]).unwrap_err(), InvalidData::BadAction);
    assert_eq!(MetricAction::from_stream(&[]).unwrap_err(), InvalidData::ShortRead(1));
}

#[test]
fn iterator_stops_at_the_first_malformed_record() {
    let mut file = Vec::new();
    for (i, v) in [1.0f32, 2.0, 3.0].iter().enumerate() {
        let mut m = sample("k", *v);
        m.timestamp = Some(100 + i as i64);
        m.write_record(&mut file).unwrap();
    }
    let good = file.len();
    file.extend_from_slice(&[0, 0, 0, 9, b'x']);
    let mut tail = sample("k", 4.0);
    tail.timestamp = Some(200);
    tail.write_record(&mut file).unwrap();
    let mut it = MetricIterator::new(&file);
    let all = it.read_all();
    assert_eq!(all.len(), 3);
    assert_eq!(all[2].timestamp, Some(102));
    assert!(it.next().is_none());
    let mut it = MetricIterator::new(&file[..good]);
    assert_eq!(it.next().unwrap().value, 1.0f32.to_bits());
    assert_eq!(it.next().unwrap().value, 2.0f32.to_bits());
    assert_eq!(it.next().unwrap().value, 3.0f32.to_bits());
    assert!(it.next().is_none());
}

/// Reads an action as a connection is read: as many bytes at a time as the
/// decoder says are missing.
fn read_in_steps(frame: &[u8]) -> (Result<MetricAction, InvalidData>, usize, usize) {
    let mut have = 0;
    let mut reads = 0;
    loop {
        match MetricAction::from_stream(&frame[..have]) {
            Ok((action, read)) => {
                assert_eq!(read, have);
                return (Ok(action), have, reads);
            }
            Err(InvalidData::ShortRead(missing)) => {
                assert!(missing > 0);
                assert!(have + missing <= frame.len(), "the frame is cut short");
                // fewer bytes than are missing leave the rest missing
                for part in 1..missing.min(4) {
                    assert_eq!(
                        MetricAction::from_stream(&frame[..have + part]).unwrap_err(),
                        InvalidData::ShortRead(missing - part)
                    );
                }
                have += missing;
                reads += 1;
            }
            Err(e) => return (Err(e), have, reads),
        }
    }
}

#[test]
fn action_is_read_field_by_field() {
    let mut frame = Vec::new();
    MetricAction::Insert(sample("cpu.load", 0.75)).write_to(&mut frame).unwrap();
    let full = frame.len();
    frame.extend_from_slice(b"what follows is not read");
    let (action, read, reads) = read_in_steps(&frame);
    assert!(matches!(action, Ok(MetricAction::Insert(_))));
    assert_eq!(read, full);
    // tag, length, identifier, value
    assert_eq!(reads, 4);

    let query = QueryParams {
        metric_id: "cpu.load".to_string(),
        date_range: Some((10, 20)),
        aggregation: QueryAggregation::Avg,
        window_secs: 5.0f32.to_bits(),
    };
    let mut frame = Vec::new();
    MetricAction::Query(query).write_to(&mut frame).unwrap();
    let full = frame.len();
    frame.push(0);
    let (action, read, reads) = read_in_steps(&frame);
    assert!(matches!(action, Ok(MetricAction::Query(_))));
    assert_eq!(read, full);
    // tag, length, identifier, flag, from, to, aggregation, window
    assert_eq!(reads, 8);
}

#[test]
fn malformed_action_is_refused_as_soon_as_it_shows() {
    let frame = [b'Q', 0, 0, 0, 1, b'x', b'?', 1, 2, 3, 4, 5, 6, 7, 8, 9];
    let (action, read, _) = read_in_steps(&frame);
    assert_eq!(action.unwrap_err(), InvalidData::BadRangeFlag);
    assert_eq!(read, 7);
    let frame = [b'Q', 0, 0, 0, 1, b'x', b'N', b'A', 0, 0, 0, 0];
    let (action, read, _) = read_in_steps(&frame);
    assert_eq!(action.unwrap_err(), InvalidData::BadAggregation);
    assert_eq!(read, 8);
}

#[test]
fn bytes_behind_a_value_change_nothing() {
    let mut frame = Vec::new();
    let mut m = sample("k", 9.5);
    m.timestamp = Some(3);
    m.write_record(&mut frame).unwrap();
    let full = frame.len();
    for extra in 0..20u8 {
        frame.push(extra);
        let (back, read) = Metric::from_record(&frame).unwrap();
        assert_eq!(read, full);
        assert_eq!(back.timestamp, Some(3));
        assert_eq!(back.metric_id, "k");
    }
}
