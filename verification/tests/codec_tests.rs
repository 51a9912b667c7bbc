use logcollect::codec::decode_record;
use logcollect::codec::encode_record;
use logcollect::codec::encode_records;
use logcollect::codec::try_encode_record;
use logcollect::record::DecodeOutcome;
use logcollect::record::DecodeReason;
use logcollect::record::LogRecord;
use logcollect::timestamp::Timestamp;

fn ts(year: u32, month: u32, day: u32, hour: u32, minute: u32, second: u32) -> Timestamp {
    Timestamp { year, month, day, hour, minute, second }
}

fn expect_parsed(line: &str) -> LogRecord {
    match decode_record(line.as_bytes().to_vec()) {
        DecodeOutcome::Parsed(r) => r,
        DecodeOutcome::Failed(e) => panic!("expected a record, got {:?}", e.reason),
    }
}

fn expect_failed(line: &str) -> (DecodeReason, Vec<u8>) {
    match decode_record(line.as_bytes().to_vec()) {
        DecodeOutcome::Parsed(_) => panic!("expected a failure for {:?}", line),
        DecodeOutcome::Failed(e) => (e.reason, e.raw),
    }
}

#[test]
fn decode_well_formed_record() {
    let r = expect_parsed("UA1,100,2020-01-01T00:00:00Z");
    assert_eq!(r.user_agent, b"UA1".to_vec());
    assert_eq!(r.response_time, 100);
    assert_eq!(r.timestamp, ts(2020, 1, 1, 0, 0, 0));
}

#[test]
fn decode_empty_user_agent() {
    let r = expect_parsed(",0,1999-12-31T23:59:59Z");
    assert_eq!(r.user_agent, b"".to_vec());
    assert_eq!(r.response_time, 0);
    assert_eq!(r.timestamp, ts(1999, 12, 31, 23, 59, 59));
}

#[test]
fn decode_wrong_field_count() {
    let (reason, raw) = expect_failed("bad-line");
    assert_eq!(reason, DecodeReason::WrongFieldCount);
    assert_eq!(raw, b"bad-line".to_vec());
}

#[test]
fn decode_four_fields_rejected() {
    let (reason, _) = expect_failed("UA,1,2020-01-01T00:00:00Z,extra");
    assert_eq!(reason, DecodeReason::WrongFieldCount);
}

#[test]
fn decode_bad_response_time() {
    let (reason, _) = expect_failed("UA,12x,2020-01-01T00:00:00Z");
    assert_eq!(reason, DecodeReason::BadResponseTime);
    let (reason, _) = expect_failed("UA,,2020-01-01T00:00:00Z");
    assert_eq!(reason, DecodeReason::BadResponseTime);
}

#[test]
fn decode_response_time_bounds() {
    let r = expect_parsed("UA,4294967295,2020-01-01T00:00:00Z");
    assert_eq!(r.response_time, u32::MAX);
    let (reason, _) = expect_failed("UA,4294967296,2020-01-01T00:00:00Z");
    assert_eq!(reason, DecodeReason::BadResponseTime);
}

#[test]
fn decode_response_time_leading_zeros() {
    let r = expect_parsed("UA,007,2020-01-01T00:00:00Z");
    assert_eq!(r.response_time, 7);
}

#[test]
fn decode_bad_timestamp() {
    let (reason, _) = expect_failed("UA,1,2020-13-01T00:00:00Z");
    assert_eq!(reason, DecodeReason::BadTimestamp);
    let (reason, _) = expect_failed("UA,1,2020-01-01 00:00:00");
    assert_eq!(reason, DecodeReason::BadTimestamp);
    let (reason, _) = expect_failed("UA,1,2020-01-32T00:00:00Z");
    assert_eq!(reason, DecodeReason::BadTimestamp);
    let (reason, _) = expect_failed("UA,1,2020-01-01T24:00:00Z");
    assert_eq!(reason, DecodeReason::BadTimestamp);
}

#[test]
fn decode_leap_day() {
    let r = expect_parsed("UA,1,2020-02-29T12:30:45Z");
    assert_eq!(r.timestamp, ts(2020, 2, 29, 12, 30, 45));
    let (reason, _) = expect_failed("UA,1,2021-02-29T00:00:00Z");
    assert_eq!(reason, DecodeReason::BadTimestamp);
}

#[test]
fn decode_century_leap_rule() {
    let (reason, _) = expect_failed("UA,1,1900-02-29T00:00:00Z");
    assert_eq!(reason, DecodeReason::BadTimestamp);
    let r = expect_parsed("UA,1,2000-02-29T00:00:00Z");
    assert_eq!(r.timestamp, ts(2000, 2, 29, 0, 0, 0));
}

#[test]
fn encode_exact_bytes() {
    let r = LogRecord {
        user_agent: b"Mozilla/5.0".to_vec(),
        response_time: 250,
        timestamp: ts(2019, 7, 6, 23, 59, 1),
    };
    let line = encode_record(&r);
    assert_eq!(line, b"Mozilla/5.0,250,2019-07-06T23:59:01Z".to_vec());
}

#[test]
fn encode_then_decode_round_trip() {
    let r = LogRecord {
        user_agent: b"some agent (linux)".to_vec(),
        response_time: u32::MAX,
        timestamp: ts(2020, 2, 29, 1, 2, 3),
    };
    let line = encode_record(&r);
    match decode_record(line) {
        DecodeOutcome::Parsed(back) => {
            assert_eq!(back.user_agent, r.user_agent);
            assert_eq!(back.response_time, r.response_time);
            assert_eq!(back.timestamp, r.timestamp);
        },
        DecodeOutcome::Failed(e) => panic!("round trip failed: {:?}", e.reason),
    }
}

#[test]
fn try_encode_rejects_unreal_timestamp() {
    let good = LogRecord {
        user_agent: b"a".to_vec(),
        response_time: 1,
        timestamp: ts(2020, 1, 1, 0, 0, 0),
    };
    assert!(try_encode_record(&good).is_some());
    let bad = LogRecord {
        user_agent: b"a".to_vec(),
        response_time: 1,
        timestamp: ts(2020, 2, 30, 0, 0, 0),
    };
    assert!(try_encode_record(&bad).is_none());
}

#[test]
fn encode_records_one_line_each() {
    let rs = vec![
        LogRecord {
            user_agent: b"UA1".to_vec(),
            response_time: 100,
            timestamp: ts(2020, 1, 1, 0, 0, 0),
        },
        LogRecord {
            user_agent: b"UA2".to_vec(),
            response_time: 200,
            timestamp: ts(2020, 1, 1, 0, 0, 1),
        },
    ];
    let out = encode_records(&rs);
    assert_eq!(
        out,
        b"UA1,100,2020-01-01T00:00:00Z\nUA2,200,2020-01-01T00:00:01Z\n".to_vec()
    );
}
