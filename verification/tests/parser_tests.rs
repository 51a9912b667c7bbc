use logcollect::parser::RecordStreamParser;
use logcollect::record::DecodeOutcome;
use logcollect::record::DecodeReason;

fn drain(data: &str) -> Vec<DecodeOutcome> {
    let mut p = RecordStreamParser::new(data.as_bytes().to_vec());
    let mut out = Vec::new();
    while let Some(o) = p.next_outcome() {
        out.push(o);
    }
    out
}

#[test]
fn parser_one_outcome_per_record() {
    let os = drain("UA1,100,2020-01-01T00:00:00Z\nbad-line\nUA2,200,2020-01-01T00:00:01Z");
    assert_eq!(os.len(), 3);
    assert!(matches!(os[0], DecodeOutcome::Parsed(_)));
    match &os[1] {
        DecodeOutcome::Failed(e) => {
            assert_eq!(e.reason, DecodeReason::WrongFieldCount);
            assert_eq!(e.raw, b"bad-line".to_vec());
        },
        DecodeOutcome::Parsed(_) => panic!("malformed line must fail"),
    }
    assert!(matches!(os[2], DecodeOutcome::Parsed(_)));
}

#[test]
fn parser_continues_past_failures() {
    let os = drain("x\ny\nUA,1,2020-01-01T00:00:00Z");
    assert_eq!(os.len(), 3);
    assert!(matches!(os[0], DecodeOutcome::Failed(_)));
    assert!(matches!(os[1], DecodeOutcome::Failed(_)));
    assert!(matches!(os[2], DecodeOutcome::Parsed(_)));
}

#[test]
fn parser_empty_input_yields_nothing() {
    assert_eq!(drain("").len(), 0);
    assert_eq!(drain("\n").len(), 0);
    assert_eq!(drain("\r\n\n\r\n").len(), 0);
}

#[test]
fn parser_handles_crlf_terminators() {
    let os = drain("UA1,1,2020-01-01T00:00:00Z\r\nUA2,2,2020-01-01T00:00:01Z\r\n");
    assert_eq!(os.len(), 2);
    match &os[0] {
        DecodeOutcome::Parsed(r) => assert_eq!(r.user_agent, b"UA1".to_vec()),
        DecodeOutcome::Failed(e) => panic!("unexpected failure: {:?}", e.reason),
    }
    match &os[1] {
        DecodeOutcome::Parsed(r) => assert_eq!(r.user_agent, b"UA2".to_vec()),
        DecodeOutcome::Failed(e) => panic!("unexpected failure: {:?}", e.reason),
    }
}

#[test]
fn parser_final_line_without_terminator() {
    let os = drain("UA1,1,2020-01-01T00:00:00Z\nUA2,2,2020-01-01T00:00:01Z");
    assert_eq!(os.len(), 2);
}

#[test]
fn parser_skips_blank_interior_lines() {
    let os = drain("UA1,1,2020-01-01T00:00:00Z\n\nUA2,2,2020-01-01T00:00:01Z\n");
    assert_eq!(os.len(), 2);
    assert!(matches!(os[0], DecodeOutcome::Parsed(_)));
    assert!(matches!(os[1], DecodeOutcome::Parsed(_)));
}
