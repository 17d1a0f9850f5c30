use metric_alert_service::metric::query::{
    date_range_of, parse_date_range, QueryAggregation, QueryParamsSerializable,
};

fn written(range: Option<(&str, &str)>) -> QueryParamsSerializable {
    QueryParamsSerializable {
        metric_id: "cpu".to_string(),
        date_range: range.map(|(from, to)| (from.to_string(), to.to_string())),
        aggregation: QueryAggregation::Min,
        window_secs: 1.0f32.to_bits(),
    }
}

#[test]
fn dates_are_read_as_utc() {
    assert_eq!(
        parse_date_range("1970-01-01 00:00:00", "1970-01-01 00:01:00"),
        Some((0, 60))
    );
    assert_eq!(
        parse_date_range("2015-09-05 23:56:04", "2022-05-01 12:00:00"),
        Some((1_441_497_364, 1_651_406_400))
    );
    assert_eq!(parse_date_range("1969-12-31 23:59:59", "1970-01-01 00:00:00"), Some((-1, 0)));
}

#[test]
fn text_that_is_no_date_gives_no_range() {
    assert_eq!(parse_date_range("yesterday", "1970-01-01 00:00:00"), None);
    assert_eq!(parse_date_range("1970-01-01 00:00:00", ""), None);
    assert_eq!(parse_date_range("1970-13-01 00:00:00", "1970-01-01 00:00:00"), None);
    assert_eq!(parse_date_range("1970-01-01 24:00:00", "1970-01-01 00:00:00"), None);
    assert_eq!(parse_date_range("0", "60"), None);
}

#[test]
fn range_needs_both_ends() {
    assert_eq!(date_range_of(Some(1), Some(2)), Some((1, 2)));
    assert_eq!(date_range_of(Some(2), Some(1)), Some((2, 1)));
    assert_eq!(date_range_of(None, Some(2)), None);
    assert_eq!(date_range_of(Some(1), None), None);
    assert_eq!(date_range_of(None, None), None);
}

#[test]
fn written_query_becomes_a_query() {
    let q = written(Some(("2022-05-01 12:00:00", "2022-05-01 12:00:30"))).to_query_params().unwrap();
    assert_eq!(q.metric_id, "cpu");
    assert_eq!(q.date_range, Some((1_651_406_400, 1_651_406_430)));
    assert_eq!(q.aggregation, QueryAggregation::Min);
    assert_eq!(q.window_secs, 1.0f32.to_bits());
    let q = written(None).to_query_params().unwrap();
    assert_eq!(q.date_range, None);
    assert_eq!(q.metric_id, "cpu");
}

#[test]
fn written_query_with_a_bad_date_becomes_none() {
    assert!(written(Some(("2022-05-01", "2022-05-01 12:00:30"))).to_query_params().is_none());
    assert!(written(Some(("2022-05-01 12:00:00", "soon"))).to_query_params().is_none());
}
