use logcollect::batch::BATCH_SIZE;
use logcollect::codec::encode_records;
use logcollect::ingest::Attachment;
use logcollect::ingest::ingest;
use logcollect::ingest::is_text_csv;
use logcollect::record::LogRecord;
use logcollect::store::Store;
use logcollect::timestamp::Timestamp;

fn csv_attachment(data: &str) -> Attachment {
    Attachment { content_type: b"text/csv".to_vec(), data: data.as_bytes().to_vec() }
}

fn well_formed_lines(n: usize) -> String {
    let mut s = String::new();
    for i in 0..n {
        s.push_str(&format!("agent{},{},2020-01-01T00:00:00Z\n", i, i));
    }
    s
}

fn all_records(store: &Store) -> Vec<LogRecord> {
    let from = Timestamp { year: 0, month: 1, day: 1, hour: 0, minute: 0, second: 0 };
    let until = Timestamp { year: 9999, month: 12, day: 31, hour: 23, minute: 59, second: 59 };
    store.query_range(&from, &until)
}

#[test]
fn ingest_counts_all_well_formed() {
    let mut store = Store::new();
    let report = ingest(vec![csv_attachment(&well_formed_lines(3))], &mut store);
    assert_eq!(report.total_inserted, 3);
    assert_eq!(store.count(), 3);
    assert_eq!(store.insert_call_sizes(), vec![3]);
}

#[test]
fn ingest_full_batches_and_remainder() {
    let mut store = Store::new();
    let report = ingest(vec![csv_attachment(&well_formed_lines(2500))], &mut store);
    assert_eq!(report.total_inserted, 2500);
    assert_eq!(store.insert_call_sizes(), vec![BATCH_SIZE, BATCH_SIZE, 500]);
}

#[test]
fn ingest_boundary_exactly_one_batch() {
    let mut store = Store::new();
    let report = ingest(vec![csv_attachment(&well_formed_lines(BATCH_SIZE))], &mut store);
    assert_eq!(report.total_inserted, BATCH_SIZE);
    assert_eq!(store.insert_call_sizes(), vec![BATCH_SIZE]);
}

#[test]
fn ingest_boundary_one_over() {
    let mut store = Store::new();
    let report = ingest(vec![csv_attachment(&well_formed_lines(BATCH_SIZE + 1))], &mut store);
    assert_eq!(report.total_inserted, BATCH_SIZE + 1);
    assert_eq!(store.insert_call_sizes(), vec![BATCH_SIZE, 1]);
}

#[test]
fn ingest_empty_attachment_contributes_nothing() {
    let mut store = Store::new();
    let report = ingest(vec![csv_attachment("")], &mut store);
    assert_eq!(report.total_inserted, 0);
    assert_eq!(store.count(), 0);
    assert_eq!(store.insert_call_sizes(), Vec::<usize>::new());
}

#[test]
fn ingest_mixed_counts_only_well_formed() {
    let mut store = Store::new();
    let data = "UA1,1,2020-01-01T00:00:00Z\nnonsense\nUA2,2,2020-01-01T00:00:01Z\n,x,\nUA3,3,2020-01-01T00:00:02Z";
    let report = ingest(vec![csv_attachment(data)], &mut store);
    assert_eq!(report.total_inserted, 3);
    assert_eq!(store.insert_call_sizes(), vec![3]);
}

#[test]
fn ingest_batch_boundaries_ignore_malformed_positions() {
    // The same well-formed records, once alone and once with malformed
    // lines scattered among them: identical batches either way.
    let clean = well_formed_lines(BATCH_SIZE + 2);
    let mut dirty = String::new();
    for (i, line) in clean.lines().enumerate() {
        if i % 3 == 0 {
            dirty.push_str("malformed\n");
        }
        dirty.push_str(line);
        dirty.push('\n');
    }
    let mut store_clean = Store::new();
    let mut store_dirty = Store::new();
    let report_clean = ingest(vec![csv_attachment(&clean)], &mut store_clean);
    let report_dirty = ingest(vec![csv_attachment(&dirty)], &mut store_dirty);
    assert_eq!(report_clean.total_inserted, BATCH_SIZE + 2);
    assert_eq!(report_dirty.total_inserted, BATCH_SIZE + 2);
    assert_eq!(store_clean.insert_call_sizes(), store_dirty.insert_call_sizes());
    let recs_clean = all_records(&store_clean);
    let recs_dirty = all_records(&store_dirty);
    assert_eq!(recs_clean.len(), recs_dirty.len());
    for (a, b) in recs_clean.iter().zip(recs_dirty.iter()) {
        assert_eq!(a.user_agent, b.user_agent);
        assert_eq!(a.response_time, b.response_time);
        assert_eq!(a.timestamp, b.timestamp);
    }
}

#[test]
fn ingest_end_to_end_with_range_query() {
    let mut store = Store::new();
    let data = "UA1,100,2020-01-01T00:00:00Z\nbad-line\nUA2,200,2020-01-01T00:00:01Z";
    let report = ingest(vec![csv_attachment(data)], &mut store);
    assert_eq!(report.total_inserted, 2);
    assert_eq!(store.insert_call_sizes(), vec![2]);
    let from = Timestamp { year: 2020, month: 1, day: 1, hour: 0, minute: 0, second: 0 };
    let until = Timestamp { year: 2020, month: 1, day: 1, hour: 0, minute: 0, second: 2 };
    let got = store.query_range(&from, &until);
    assert_eq!(got.len(), 2);
    assert_eq!(got[0].user_agent, b"UA1".to_vec());
    assert_eq!(got[0].response_time, 100);
    assert_eq!(got[1].user_agent, b"UA2".to_vec());
    assert_eq!(got[1].response_time, 200);
}

#[test]
fn ingest_skips_text_plain_entirely() {
    let mut store = Store::new();
    let att = Attachment {
        content_type: b"text/plain".to_vec(),
        data: well_formed_lines(5).into_bytes(),
    };
    let report = ingest(vec![att], &mut store);
    assert_eq!(report.total_inserted, 0);
    assert_eq!(store.count(), 0);
    assert_eq!(store.insert_call_sizes(), Vec::<usize>::new());
}

#[test]
fn ingest_mixed_media_types() {
    let mut store = Store::new();
    let atts = vec![
        csv_attachment("UA1,1,2020-01-01T00:00:00Z"),
        Attachment {
            content_type: b"text/plain".to_vec(),
            data: b"UA9,9,2020-01-01T00:00:00Z".to_vec(),
        },
        csv_attachment("UA2,2,2020-01-01T00:00:01Z"),
    ];
    let report = ingest(atts, &mut store);
    assert_eq!(report.total_inserted, 2);
    assert_eq!(store.insert_call_sizes(), vec![1, 1]);
    let got = all_records(&store);
    assert_eq!(got[0].user_agent, b"UA1".to_vec());
    assert_eq!(got[1].user_agent, b"UA2".to_vec());
}

#[test]
fn ingest_resubmission_is_not_deduplicated() {
    let mut store = Store::new();
    let data = well_formed_lines(2);
    let first = ingest(vec![csv_attachment(&data)], &mut store);
    let second = ingest(vec![csv_attachment(&data)], &mut store);
    assert_eq!(first.total_inserted, 2);
    assert_eq!(second.total_inserted, 2);
    assert_eq!(store.count(), 4);
    let got = all_records(&store);
    assert_eq!(got[0].user_agent, got[2].user_agent);
    assert_eq!(got[1].user_agent, got[3].user_agent);
}

#[test]
fn query_range_lower_inclusive_upper_exclusive() {
    let mut store = Store::new();
    let data = "UA1,1,2020-01-01T00:00:00Z\nUA2,2,2020-01-01T00:00:01Z\nUA3,3,2020-01-01T00:00:02Z";
    ingest(vec![csv_attachment(data)], &mut store);
    let from = Timestamp { year: 2020, month: 1, day: 1, hour: 0, minute: 0, second: 1 };
    let until = Timestamp { year: 2020, month: 1, day: 1, hour: 0, minute: 0, second: 2 };
    let got = store.query_range(&from, &until);
    assert_eq!(got.len(), 1);
    assert_eq!(got[0].user_agent, b"UA2".to_vec());
}

#[test]
fn reupload_of_served_records_is_faithful() {
    let mut store = Store::new();
    let data = "UA1,100,2020-01-01T00:00:00Z\nUA2,200,2020-01-01T00:00:01Z";
    ingest(vec![csv_attachment(data)], &mut store);
    let served = encode_records(&all_records(&store));
    let mut second = Store::new();
    let report = ingest(
        vec![Attachment { content_type: b"text/csv".to_vec(), data: served }],
        &mut second,
    );
    assert_eq!(report.total_inserted, 2);
    let before = all_records(&store);
    let after = all_records(&second);
    assert_eq!(before.len(), after.len());
    for (a, b) in before.iter().zip(after.iter()) {
        assert_eq!(a.user_agent, b.user_agent);
        assert_eq!(a.response_time, b.response_time);
        assert_eq!(a.timestamp, b.timestamp);
    }
}

#[test]
fn media_type_must_match_exactly() {
    assert!(is_text_csv(&b"text/csv".to_vec()));
    assert!(!is_text_csv(&b"text/plain".to_vec()));
    assert!(!is_text_csv(&b"text/csv2".to_vec()));
    assert!(!is_text_csv(&b"TEXT/CSV".to_vec()));
}
