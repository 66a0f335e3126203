use sts_rs::datum::Datum;
use sts_rs::clock::{MAX_UTC_SECS, MIN_UTC_SECS};
use sts_rs::ingest::{handle_read, handle_write, ingest, new_point, persist_line, ReadOutcome, Rejected};
use sts_rs::plot::plot_command;
use sts_rs::record::{encode_record, encode_timestamp, parse_line, parse_log, parse_timestamp};
use sts_rs::recovery::{latest_timestamp, recover_all, SeriesLog};
use sts_rs::response::{accepted_body, found_body};
use sts_rs::store::SeriesStore;

fn point(timestamp: i64, value: f64) -> Datum {
    Datum::new(timestamp, value.to_bits())
}

fn name(s: &str) -> String {
    s.to_string()
}

#[test]
fn writes_to_new_series_are_counted() {
    let mut store = SeriesStore::new();
    let n = name("temp");
    for i in 0..7 {
        let r = handle_write(&mut store, &n, point(i, 1.0), 5, Some(name("t")));
        assert!(r.is_ok());
        assert_eq!(r.unwrap().point_count, (i + 1) as usize);
    }
    assert_eq!(handle_read(&store, &n), ReadOutcome::Found { count: 7 });
}

#[test]
fn unknown_series_is_not_found() {
    let mut store = SeriesStore::new();
    assert_eq!(handle_read(&store, &name("missing")), ReadOutcome::NotFound);
    store.append(&name("temp"), point(1, 2.0), 3);
    assert_eq!(handle_read(&store, &name("missing")), ReadOutcome::NotFound);
    assert_eq!(handle_read(&store, &name("temp")), ReadOutcome::Found { count: 1 });
}

#[test]
fn non_finite_value_is_rejected_without_change() {
    let mut store = SeriesStore::new();
    let n = name("temp");
    for v in [f64::NAN, f64::INFINITY, f64::NEG_INFINITY] {
        let r = handle_write(&mut store, &n, point(1, v), 5, Some(name("t")));
        assert!(matches!(r, Err(Rejected::NonFiniteValue)));
    }
    assert_eq!(handle_read(&store, &n), ReadOutcome::NotFound);
    assert!(point(1, f64::MAX).has_finite_value());
    assert!(point(1, -0.0).has_finite_value());
    assert!(!point(1, f64::NAN).has_finite_value());
}

#[test]
fn unwritable_timestamp_is_rejected_without_change() {
    let mut store = SeriesStore::new();
    let n = name("temp");
    let r = handle_write(&mut store, &n, point(1, 1.0), 5, None);
    assert!(matches!(r, Err(Rejected::TimestampOutOfRange)));
    assert_eq!(handle_read(&store, &n), ReadOutcome::NotFound);
    let r = ingest(&mut store, &n, point(i64::MAX, 1.0), 5);
    assert!(matches!(r, Err(Rejected::TimestampOutOfRange)));
    assert_eq!(handle_read(&store, &n), ReadOutcome::NotFound);
}

#[test]
fn ingest_writes_out_the_timestamp() {
    let mut store = SeriesStore::new();
    let n = name("temp");
    let a = ingest(&mut store, &n, point(1610000000, 21.5), 5).ok().unwrap();
    assert_eq!(a.time_text, "2021-01-07 06:13:20 +0000");
    assert_eq!(a.point_count, 1);
    assert_eq!(a.job.series_name, "temp");
    assert_eq!(a.job.points, vec![point(1610000000, 21.5)]);
    assert_eq!(handle_read(&store, &n), ReadOutcome::Found { count: 1 });
}

#[test]
fn snapshot_holds_points_in_arrival_order() {
    let mut store = SeriesStore::new();
    let n = name("temp");
    store.append(&n, point(100, 1.0), 1);
    store.append(&name("other"), point(7, 3.0), 2);
    store.append(&n, point(50, 2.0), 3);
    let snapshot = store.append(&n, point(200, 3.0), 4);
    assert_eq!(snapshot, vec![point(100, 1.0), point(50, 2.0), point(200, 3.0)]);
    let listed = store.list();
    assert_eq!(listed.len(), 2);
    assert_eq!(listed[0].name, "other");
    assert_eq!(listed[0].count, 1);
    assert_eq!(listed[1].name, "temp");
    assert_eq!(listed[1].count, 3);
    assert_eq!(listed[1].last_modified, 4);
}

#[test]
fn listing_is_sorted_by_name() {
    let mut store = SeriesStore::new();
    for (i, n) in ["b", "é", "ab", "Z", "a", "b"].iter().enumerate() {
        store.append(&name(n), point(i as i64, 1.0), i as i64);
    }
    let listed: Vec<(String, usize)> = store.list().into_iter().map(|s| (s.name, s.count)).collect();
    let expected = vec![
        (name("Z"), 1),
        (name("a"), 1),
        (name("ab"), 1),
        (name("b"), 2),
        (name("é"), 1),
    ];
    assert_eq!(listed, expected);
}

#[test]
fn new_point_is_the_last_of_the_snapshot() {
    let mut store = SeriesStore::new();
    let n = name("temp");
    handle_write(&mut store, &n, point(100, 1.0), 1, Some(name("t"))).ok().unwrap();
    let a = handle_write(&mut store, &n, point(50, 2.0), 2, Some(name("t"))).ok().unwrap();
    assert_eq!(new_point(&a.job), Some(point(50, 2.0)));
    let empty = sts_rs::ingest::WriteJob { series_name: n, points: Vec::new() };
    assert_eq!(new_point(&empty), None);
}

#[test]
fn example_record_line() {
    let line = encode_record(1610000000, &b"21.5".to_vec());
    assert_eq!(line, b"1610000000,21.5\n".to_vec());
}

#[test]
fn timestamps_are_written_in_decimal() {
    assert_eq!(encode_timestamp(0), b"0".to_vec());
    assert_eq!(encode_timestamp(-45), b"-45".to_vec());
    assert_eq!(encode_timestamp(i64::MAX), i64::MAX.to_string().into_bytes());
    assert_eq!(encode_timestamp(i64::MIN), i64::MIN.to_string().into_bytes());
}

#[test]
fn timestamps_read_back() {
    for t in [0i64, 7, -7, 1610000000, i64::MAX, i64::MIN] {
        let text = encode_timestamp(t);
        assert_eq!(parse_timestamp(&text, 0, text.len()), Some(t));
    }
    let bad: Vec<&[u8]> = vec![b"", b"-", b"1a", b"9223372036854775808", b"-9223372036854775809", b"99999999999999999999999", b" 1", b"+1"];
    for b in bad {
        let v = b.to_vec();
        assert_eq!(parse_timestamp(&v, 0, v.len()), None);
    }
}

#[test]
fn line_splits_at_first_comma() {
    let v = b"12,3.5,x".to_vec();
    let r = parse_line(&v, 0, v.len()).unwrap();
    assert_eq!(r.timestamp, 12);
    assert_eq!(r.value_text, b"3.5,x".to_vec());
    let v = b"12".to_vec();
    assert!(parse_line(&v, 0, v.len()).is_none());
    let v = b"x,1".to_vec();
    assert!(parse_line(&v, 0, v.len()).is_none());
}

#[test]
fn out_of_order_timestamps_keep_arrival_order_in_log() {
    let mut log: Vec<u8> = Vec::new();
    for (t, v) in [(100i64, "1"), (50, "2"), (200, "3")] {
        log.extend(encode_record(t, &v.as_bytes().to_vec()));
    }
    assert_eq!(log, b"100,1\n50,2\n200,3\n".to_vec());
    let records = parse_log(&log).unwrap();
    let ts: Vec<i64> = records.iter().map(|r| r.timestamp).collect();
    assert_eq!(ts, vec![100, 50, 200]);
    assert_eq!(records[1].value_text, b"2".to_vec());
}

#[test]
fn log_parsing_skips_empty_lines_and_refuses_bad_ones() {
    let records = parse_log(&b"\n1,2\n\n3,4".to_vec()).unwrap();
    assert_eq!(records.len(), 2);
    assert_eq!(records[1].timestamp, 3);
    assert_eq!(records[1].value_text, b"4".to_vec());
    assert_eq!(parse_log(&Vec::new()).unwrap().len(), 0);
    assert!(parse_log(&b"1,2\nbad\n".to_vec()).is_none());
}

#[test]
fn recovery_takes_largest_timestamp() {
    let logs = vec![
        SeriesLog { name: name("temp"), points: vec![point(100, 1.0), point(300, 2.0), point(200, 3.0)] },
        SeriesLog { name: name("empty"), points: Vec::new() },
    ];
    let store = recover_all(&logs);
    assert_eq!(handle_read(&store, &name("temp")), ReadOutcome::Found { count: 3 });
    assert_eq!(handle_read(&store, &name("empty")), ReadOutcome::NotFound);
    let listed = store.list();
    assert_eq!(listed.len(), 1);
    assert_eq!(listed[0].last_modified, 300);
    assert_eq!(latest_timestamp(&vec![point(-5, 0.0), point(-9, 0.0)]), -5);
    assert_eq!(latest_timestamp(&Vec::new()), i64::MIN);
}

#[test]
fn recovery_twice_gives_same_store() {
    let logs = vec![
        SeriesLog { name: name("a"), points: vec![point(5, 1.0), point(1, 2.0)] },
        SeriesLog { name: name("b"), points: vec![point(9, 1.5)] },
    ];
    let first = recover_all(&logs).list();
    let second = recover_all(&logs).list();
    assert_eq!(first.len(), second.len());
    for (x, y) in first.iter().zip(second.iter()) {
        assert_eq!(x.name, y.name);
        assert_eq!(x.count, y.count);
        assert_eq!(x.last_modified, y.last_modified);
    }
}

#[test]
fn value_bits_survive_write_and_recovery() {
    let value = 21.5f64;
    let line = encode_record(1610000000, &value.to_string().into_bytes());
    let records = parse_log(&line).unwrap();
    let text = String::from_utf8(records[0].value_text.clone()).unwrap();
    let back: f64 = text.parse().unwrap();
    assert_eq!(records[0].timestamp, 1610000000);
    assert_eq!(back.to_bits(), value.to_bits());
}

fn persist(log: &mut Vec<u8>, job: &sts_rs::ingest::WriteJob) {
    let d = new_point(job).unwrap();
    let text = f64::from_bits(d.value_bits).to_string().into_bytes();
    log.extend(encode_record(d.timestamp, &text));
}

#[test]
fn every_write_reaches_the_log_once() {
    let mut store = SeriesStore::new();
    let mut log: Vec<u8> = Vec::new();
    let n = name("load");
    let count = 50usize;
    for i in 0..count {
        let a = handle_write(&mut store, &n, point(1000 - i as i64, i as f64 * 0.5), 1, Some(name("t")))
            .ok()
            .unwrap();
        persist(&mut log, &a.job);
    }
    assert_eq!(handle_read(&store, &n), ReadOutcome::Found { count });
    let records = parse_log(&log).unwrap();
    assert_eq!(records.len(), count);
    for (i, r) in records.iter().enumerate() {
        assert_eq!(r.timestamp, 1000 - i as i64);
    }
}

#[test]
fn example_post_then_get() {
    let mut store = SeriesStore::new();
    let mut log: Vec<u8> = Vec::new();
    let a = ingest(&mut store, &name("temp"), point(1610000000, 21.5), 5).ok().unwrap();
    persist(&mut log, &a.job);
    assert_eq!(handle_read(&store, &name("temp")), ReadOutcome::Found { count: 1 });
    assert_eq!(log, b"1610000000,21.5\n".to_vec());
    assert_eq!(handle_read(&store, &name("missing")), ReadOutcome::NotFound);
}

#[test]
fn read_answer_text() {
    assert_eq!(found_body(&name("temp"), 1), b"Series temp has 1 values.".to_vec());
    assert_eq!(found_body(&name("t\u{e9}"), 1234), "Series t\u{e9} has 1234 values.".as_bytes().to_vec());
    assert_eq!(found_body(&name(""), 0), b"Series  has 0 values.".to_vec());
}

#[test]
fn write_answer_text() {
    let mut store = SeriesStore::new();
    let a = ingest(&mut store, &name("temp"), point(1610000000, 21.5), 5).ok().unwrap();
    let body = accepted_body(&21.5f64.to_string().into_bytes(), &name("temp"), &a.time_text);
    assert_eq!(
        String::from_utf8(body).unwrap(),
        "Administered value 21.5, for parameter temp, for time 2021-01-07 06:13:20 +0000"
    );
}

#[test]
fn ingest_accepts_exactly_the_calendar_range() {
    let mut store = SeriesStore::new();
    let n = name("edge");
    assert!(ingest(&mut store, &n, point(MIN_UTC_SECS, 1.0), 1).is_ok());
    assert!(ingest(&mut store, &n, point(MAX_UTC_SECS, 1.0), 2).is_ok());
    assert!(matches!(ingest(&mut store, &n, point(MIN_UTC_SECS - 1, 1.0), 3), Err(Rejected::TimestampOutOfRange)));
    assert!(matches!(ingest(&mut store, &n, point(MAX_UTC_SECS + 1, 1.0), 4), Err(Rejected::TimestampOutOfRange)));
    assert!(matches!(ingest(&mut store, &n, point(i64::MIN, 1.0), 5), Err(Rejected::TimestampOutOfRange)));
    assert_eq!(handle_read(&store, &n), ReadOutcome::Found { count: 2 });
    let listed = store.list();
    assert_eq!(listed[0].last_modified, 2);
}

#[test]
fn persist_line_writes_the_new_point() {
    let mut store = SeriesStore::new();
    let n = name("temp");
    handle_write(&mut store, &n, point(100, 1.0), 1, Some(name("t"))).ok().unwrap();
    let a = handle_write(&mut store, &n, point(-50, 2.0), 2, Some(name("t"))).ok().unwrap();
    assert_eq!(persist_line(&a.job, &b"2".to_vec()), Some(b"-50,2\n".to_vec()));
    assert_eq!(persist_line(&a.job, &b"2\n3".to_vec()), None);
    let empty = sts_rs::ingest::WriteJob { series_name: n, points: Vec::new() };
    assert_eq!(persist_line(&empty, &b"2".to_vec()), None);
}

#[test]
fn plot_script_text() {
    let script = plot_command(&name("/img/temp.svg"), &name("temp"), &name("/data/temp.csv"));
    let expected = "set timefmt \"%s\";
set format x \"%Y/%m/%d %H:%M:%S\";
set xdata time;
set xtics rotate;
set terminal svg;
set xlabel 'Time';
set key off;
set datafile separator \",\";
set autoscale;
set offsets 0.0, 0.0, 0.01, 0.01;
set grid;
set output '/img/temp.svg';
set title 'temp over time';
set ylabel 'temp';
plot '/data/temp.csv' using 1:2 with lines notitle;";
    assert_eq!(String::from_utf8(script).unwrap(), expected);
}

#[test]
fn recovery_ignores_log_order() {
    let a = SeriesLog { name: name("a"), points: vec![point(5, 1.0), point(1, 2.0)] };
    let b = SeriesLog { name: name("b"), points: vec![point(9, 1.5)] };
    let a2 = SeriesLog { name: name("a"), points: a.points.clone() };
    let b2 = SeriesLog { name: name("b"), points: b.points.clone() };
    let first: Vec<(String, usize, i64)> =
        recover_all(&vec![a, b]).list().into_iter().map(|s| (s.name, s.count, s.last_modified)).collect();
    let second: Vec<(String, usize, i64)> =
        recover_all(&vec![b2, a2]).list().into_iter().map(|s| (s.name, s.count, s.last_modified)).collect();
    assert_eq!(first, second);
    assert_eq!(first, vec![(name("a"), 2, 5), (name("b"), 1, 9)]);
}
