use logcollect::batch::BATCH_SIZE;
use logcollect::batch::Batcher;
use logcollect::codec::decode_record;
use logcollect::record::DecodeOutcome;

fn good_outcome(i: usize) -> DecodeOutcome {
    decode_record(format!("agent{},{},2020-01-01T00:00:00Z", i, i).into_bytes())
}

fn bad_outcome() -> DecodeOutcome {
    decode_record(b"not a record".to_vec())
}

#[test]
fn batcher_emits_only_full_batches_until_finish() {
    let mut b = Batcher::new();
    let mut emitted = Vec::new();
    for i in 0..BATCH_SIZE + 2 {
        if let Some(batch) = b.push(good_outcome(i)) {
            emitted.push(batch);
        }
    }
    assert_eq!(emitted.len(), 1);
    assert_eq!(emitted[0].records.len(), BATCH_SIZE);
    let last = b.finish().expect("two records remain");
    assert_eq!(last.records.len(), 2);
    assert_eq!(last.records[0].user_agent, format!("agent{}", BATCH_SIZE).into_bytes());
}

#[test]
fn batcher_failures_fill_no_slot_and_are_counted() {
    let mut b = Batcher::new();
    assert_eq!(b.failures(), 0);
    assert!(b.push(bad_outcome()).is_none());
    assert!(b.push(good_outcome(1)).is_none());
    assert!(b.push(bad_outcome()).is_none());
    assert_eq!(b.failures(), 2);
    let batch = b.finish().expect("one record remains");
    assert_eq!(batch.records.len(), 1);
}

#[test]
fn batcher_with_no_successes_yields_nothing() {
    let mut b = Batcher::new();
    for _ in 0..5 {
        assert!(b.push(bad_outcome()).is_none());
    }
    assert_eq!(b.failures(), 5);
    assert!(b.finish().is_none());
}
