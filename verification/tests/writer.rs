use metric_alert_service::metric::metric_writer::{
    MetricWriter, Received, WriterStep, RECEIVE_TIMEOUT_SECS,
};
use metric_alert_service::metric::{Metric, MetricIterator};
use metric_alert_service::wire::InvalidData;
use std::collections::BTreeMap;

fn sample(id: &str, value: f32) -> Metric {
    Metric::new(id.to_string(), value.to_bits())
}

#[test]
fn writer_starts_in_the_bucket_of_its_start() {
    let mut writer = MetricWriter::new(3, "metrics".to_string(), 1_700_000_003);
    assert_eq!(writer.live_file(), "metrics/writer/3.metric.tmp");
    assert!(writer.check_file_swap(1_700_000_000).is_none());
    assert!(writer.check_file_swap(1_700_000_004).is_none());
    let swap = writer.check_file_swap(1_700_000_005).unwrap();
    assert_eq!(swap.old_path, "metrics/writer/3.metric.tmp");
    assert_eq!(swap.new_path, format!("metrics/3_{:x}.metric.tmp", 1_700_000_000i64));
}

#[test]
fn swap_seals_under_the_bucket_that_was_left() {
    let mut writer = MetricWriter::new(0, "r".to_string(), 12);
    let swap = writer.check_file_swap(31).unwrap();
    assert_eq!(swap.new_path, "r/0_a.metric.tmp");
    assert!(writer.check_file_swap(34).is_none());
    let swap = writer.check_file_swap(35).unwrap();
    assert_eq!(swap.new_path, "r/0_1e.metric.tmp");
    assert_eq!(swap.old_path, "r/writer/0.metric.tmp");
}

#[test]
fn metric_is_stamped_when_it_is_handled() {
    let writer = MetricWriter::new(1, "r".to_string(), 100);
    let bytes = writer.handle_metric(sample("cpu", 2.5), 103).unwrap();
    let mut expected = Vec::new();
    let mut stamped = sample("cpu", 2.5);
    stamped.timestamp = Some(103);
    stamped.write_record(&mut expected).unwrap();
    assert_eq!(bytes, expected);
    let (back, read) = Metric::from_record(&bytes).unwrap();
    assert_eq!(read, bytes.len());
    assert_eq!(back.timestamp, Some(103));
    assert_eq!(back.value, 2.5f32.to_bits());
}

#[test]
fn stamp_replaces_an_earlier_timestamp() {
    let writer = MetricWriter::new(1, "r".to_string(), 100);
    let mut metric = sample("cpu", 1.0);
    metric.timestamp = Some(7);
    let bytes = writer.handle_metric(metric, 101).unwrap();
    assert_eq!(Metric::from_record(&bytes).unwrap().0.timestamp, Some(101));
}

#[test]
fn writer_steps_by_what_it_received() {
    let mut writer = MetricWriter::new(1, "r".to_string(), 100);
    match writer.receive(Received::Metric(sample("a", 1.0)), 100) {
        Ok(WriterStep::Append { swap: None, record }) => {
            assert_eq!(record.len(), 4 + 1 + 4 + 8);
            assert_eq!(Metric::from_record(&record).unwrap().0.timestamp, Some(100));
        }
        other => panic!("a sample is appended, not {:?}", other),
    }
    assert!(matches!(writer.receive(Received::Timeout, 104), Ok(WriterStep::Idle { swap: None })));
    assert_eq!(RECEIVE_TIMEOUT_SECS, 5);
}

#[test]
fn writer_seals_before_it_appends() {
    let mut writer = MetricWriter::new(1, "r".to_string(), 100);
    match writer.receive(Received::Metric(sample("a", 1.0)), 107) {
        Ok(WriterStep::Append { swap: Some(swap), record }) => {
            assert_eq!(swap.old_path, "r/writer/1.metric.tmp");
            assert_eq!(swap.new_path, "r/1_64.metric.tmp");
            assert_eq!(Metric::from_record(&record).unwrap().0.timestamp, Some(107));
        }
        other => panic!("the live file is sealed and the sample appended, not {:?}", other),
    }
    assert!(writer.check_file_swap(109).is_none());
}

#[test]
fn writer_seals_without_traffic() {
    let mut writer = MetricWriter::new(1, "r".to_string(), 100);
    match writer.receive(Received::Timeout, 105) {
        Ok(WriterStep::Idle { swap: Some(swap) }) => {
            assert_eq!(swap.new_path, "r/1_64.metric.tmp")
        }
        other => panic!("the live file is sealed, not {:?}", other),
    }
    assert!(matches!(writer.receive(Received::Timeout, 106), Ok(WriterStep::Idle { swap: None })));
}

#[test]
fn writer_stops_when_all_senders_are_gone() {
    let mut writer = MetricWriter::new(1, "r".to_string(), 100);
    assert!(matches!(writer.receive(Received::Disconnected, 100), Ok(WriterStep::Stop)));
    assert!(matches!(writer.receive(Received::Disconnected, i64::MAX), Ok(WriterStep::Stop)));
    // stopping looks at no clock and seals nothing
    assert!(writer.check_file_swap(104).is_none());
}

#[test]
fn error_has_no_step() {
    let step: Result<WriterStep, InvalidData> = Err(InvalidData::TooLong);
    assert!(step.is_err());
}

/// Carries out the writer's decisions on files held in memory.
struct Files {
    live: Vec<u8>,
    sealed: BTreeMap<String, Vec<u8>>,
}

fn run(start: i64, arrivals: &[(i64, f32)]) -> (MetricWriter, Files) {
    let mut writer = MetricWriter::new(2, "root".to_string(), start);
    let mut files = Files { live: Vec::new(), sealed: BTreeMap::new() };
    for (at, value) in arrivals {
        match writer.receive(Received::Metric(sample("m", *value)), *at).unwrap() {
            WriterStep::Append { swap, record } => {
                if let Some(swap) = swap {
                    assert_eq!(swap.old_path, writer.live_file());
                    let sealed = std::mem::take(&mut files.live);
                    assert!(files.sealed.insert(swap.new_path, sealed).is_none());
                }
                files.live.extend_from_slice(&record)
            }
            other => panic!("a sample is appended, not {:?}", other),
        }
    }
    (writer, files)
}

fn stamps_and_values(bytes: &[u8]) -> Vec<(i64, f32)> {
    let mut it = MetricIterator::new(bytes);
    let mut found = Vec::new();
    while let Some(m) = it.next() {
        found.push((m.timestamp.unwrap(), f32::from_bits(m.value)));
    }
    found
}

#[test]
fn inserts_over_several_buckets_are_sealed_bucket_by_bucket() {
    let arrivals =
        [(100, 1.0), (101, 2.0), (104, 3.0), (105, 4.0), (109, 5.0), (121, 6.0), (122, 7.0)];
    let (_, files) = run(100, &arrivals);
    assert_eq!(files.sealed.len(), 2);
    assert_eq!(
        stamps_and_values(&files.sealed["root/2_64.metric.tmp"]),
        vec![(100, 1.0), (101, 2.0), (104, 3.0)]
    );
    assert_eq!(
        stamps_and_values(&files.sealed["root/2_69.metric.tmp"]),
        vec![(105, 4.0), (109, 5.0)]
    );
    assert_eq!(stamps_and_values(&files.live), vec![(121, 6.0), (122, 7.0)]);
}

#[test]
fn bucket_without_inserts_is_sealed_empty_when_it_is_left() {
    let (mut writer, mut files) = run(100, &[]);
    let swap = writer.check_file_swap(107).unwrap();
    files.sealed.insert(swap.new_path, std::mem::take(&mut files.live));
    assert_eq!(files.sealed.len(), 1);
    assert!(files.sealed["root/2_64.metric.tmp"].is_empty());
}

#[test]
fn every_record_lies_in_the_bucket_of_its_stamp() {
    let mut arrivals = Vec::new();
    let mut at = 1_000i64;
    let mut state: u64 = 7;
    for i in 0..200 {
        state = state.wrapping_mul(6_364_136_223_846_793_005).wrapping_add(1);
        at += ((state >> 40) % 4) as i64;
        arrivals.push((at, i as f32));
    }
    let (_, files) = run(1_000, &arrivals);
    let mut seen = Vec::new();
    for (name, bytes) in files.sealed.iter() {
        let hex = name.trim_start_matches("root/2_").trim_end_matches(".metric.tmp");
        let bucket = i64::from_str_radix(hex, 16).unwrap();
        for (stamp, value) in stamps_and_values(bytes) {
            assert_eq!(stamp - stamp.rem_euclid(5), bucket);
            seen.push((stamp, value));
        }
    }
    seen.extend(stamps_and_values(&files.live));
    seen.sort_by(|a, b| a.partial_cmp(b).unwrap());
    assert_eq!(seen, arrivals);
}
