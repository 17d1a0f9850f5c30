use metric_alert_service::bucket::{bucket_of, bucket_start, date_range_iterator, BUCKET_WIDTH};
use metric_alert_service::names::{live_path, sealed_path, shard_prefix_text};

fn all_of(from: i64, to: i64) -> Vec<i64> {
    let mut it = date_range_iterator(from, to);
    let mut found = Vec::new();
    while let Some(start) = it.next() {
        found.push(start);
        assert!(found.len() < 10_000);
    }
    assert_eq!(it.next(), None);
    found
}

#[test]
fn bucket_start_is_the_floor_to_the_width() {
    assert_eq!(BUCKET_WIDTH, 5);
    assert_eq!(bucket_start(0), Some(0));
    assert_eq!(bucket_start(4), Some(0));
    assert_eq!(bucket_start(5), Some(5));
    assert_eq!(bucket_start(12), Some(10));
    assert_eq!(bucket_start(-1), Some(-5));
    assert_eq!(bucket_start(-5), Some(-5));
    assert_eq!(bucket_start(-6), Some(-10));
    assert_eq!(bucket_start(1_700_000_003), Some(1_700_000_000));
    assert_eq!(bucket_start(i64::MAX), Some(i64::MAX - 2));
    assert_eq!(bucket_of(1_700_000_004), 1_700_000_000);
    assert_eq!(bucket_of(-1), -5);
}

#[test]
fn bucket_start_below_every_instant_is_none() {
    assert_eq!(bucket_start(i64::MIN), None);
    assert_eq!(bucket_start(i64::MIN + 2), None);
    assert_eq!(bucket_start(i64::MIN + 3), Some(i64::MIN + 3));
    assert_eq!(bucket_start(i64::MIN + 7), Some(i64::MIN + 3));
}

#[test]
fn date_range_touches_both_end_buckets() {
    assert_eq!(all_of(3, 11), vec![0, 5, 10]);
    assert_eq!(all_of(5, 5), vec![5]);
    assert_eq!(all_of(5, 9), vec![5]);
    assert_eq!(all_of(4, 5), vec![0, 5]);
    assert_eq!(all_of(-7, 1), vec![-10, -5, 0]);
    assert_eq!(all_of(940, 1_000).len(), 13);
}

#[test]
fn date_range_that_ends_before_it_begins_is_empty() {
    assert_eq!(all_of(10, 4), Vec::<i64>::new());
    assert_eq!(all_of(10, 9), Vec::<i64>::new());
    assert_eq!(all_of(12, 10), vec![10]);
}

#[test]
fn date_range_at_the_ends_of_time() {
    assert_eq!(all_of(i64::MIN, i64::MIN + 2), Vec::<i64>::new());
    assert_eq!(all_of(i64::MIN, i64::MIN + 8), vec![i64::MIN + 3, i64::MIN + 8]);
    assert_eq!(all_of(i64::MAX - 6, i64::MAX), vec![i64::MAX - 7, i64::MAX - 2]);
}

#[test]
fn names_are_those_of_the_format() {
    for root in ["metrics", "/var/lib/m", ""] {
        for shard in [0usize, 1, 3, 9, 10, 42, 12_345] {
            assert_eq!(live_path(root, shard), format!("{}/writer/{}.metric.tmp", root, shard));
            for bucket in [0i64, 5, 10, 255, 1_700_000_000, -5, i64::MAX - 2, i64::MIN + 3] {
                assert_eq!(
                    sealed_path(root, shard, bucket),
                    format!("{}/{}_{:x}.metric.tmp", root, shard, bucket)
                );
            }
        }
    }
    assert_eq!(sealed_path("metrics", 2, 1_700_000_000), "metrics/2_6553f100.metric.tmp");
    assert_eq!(sealed_path("m", 0, -5), "m/0_fffffffffffffffb.metric.tmp");
}

#[test]
fn shard_prefix_is_the_shard_and_an_underscore() {
    assert_eq!(shard_prefix_text(0), "0_");
    assert_eq!(shard_prefix_text(7), "7_");
    assert_eq!(shard_prefix_text(10), "10_");
    assert_eq!(shard_prefix_text(1_234_567_890), "1234567890_");
    assert_eq!(shard_prefix_text(usize::MAX), format!("{}_", usize::MAX));
}

#[test]
fn no_two_files_share_a_name() {
    let mut names = std::collections::BTreeSet::new();
    let mut count = 0;
    for shard in [0usize, 1, 2, 9, 10, 11, 19, 100, 101, 110] {
        assert!(names.insert(live_path("root", shard)));
        count += 1;
        for bucket in [0i64, 5, 10, 15, 16, 160, 165, 0x100, 0x1000, -5, -10, i64::MIN + 3] {
            assert!(names.insert(sealed_path("root", shard, bucket)), "{} {}", shard, bucket);
            count += 1;
        }
    }
    assert_eq!(names.len(), count);
}
