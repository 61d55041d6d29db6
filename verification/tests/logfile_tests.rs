use tilematch::logfile::{format_record, parse_log, parse_record, FrameRecord, LogError};

fn rec(frame: u32) -> FrameRecord {
    FrameRecord {
        frame,
        tile_x: 77,
        tile_y: 19,
        tile_z: 7,
        zoom: 0x3B00,
        x: 277,
        y: 95,
        score: -33554432,
    }
}

#[test]
fn format_then_parse_gives_back_the_record() {
    let r = rec(42);
    let line = format_record(&r, 1234);
    let parsed = parse_record(&line).expect("well-formed row");
    assert_eq!(parsed, r);
}

#[test]
fn formatted_row_has_expected_text() {
    let line = format_record(&rec(5), 250);
    assert_eq!(
        String::from_utf8(line).unwrap(),
        "5,77,19,7,15104,277,95,-33554432,250"
    );
}

#[test]
fn whole_log_round_trips() {
    let mut content: Vec<u8> = b"Frame,tile_x,tile_y,tile_z,zoom,x,y,score,time".to_vec();
    for f in [1u32, 2, 3] {
        content.push(b'\n');
        content.extend_from_slice(&format_record(&rec(f), 10 * f as u64));
    }
    content.push(b'\n');
    let records = parse_log(&content).expect("clean log");
    assert_eq!(records.len(), 3);
    for (i, r) in records.iter().enumerate() {
        assert_eq!(r.frame, (i + 1) as u32);
        assert_eq!(r.score, -33554432);
    }
}

#[test]
fn blank_and_comment_lines_are_skipped() {
    let content = b"Frame,tile_x,tile_y,tile_z,zoom,x,y,score,time\n\n# note\n9,1,2,3,0,4,5,6,7\n";
    let records = parse_log(content).expect("clean log");
    assert_eq!(records.len(), 1);
    assert_eq!(records[0].frame, 9);
    assert_eq!(records[0].zoom, 0);
    assert_eq!(records[0].score, 6);
}

#[test]
fn empty_log_parses_to_nothing() {
    let records = parse_log(b"").expect("empty file is a fresh start");
    assert!(records.is_empty());
}

#[test]
fn malformed_row_is_fatal() {
    let content = b"header\n1,2,3,4,5,6,7,8,9\nnot,a,row\n";
    match parse_log(content) {
        Err(LogError::Malformed(line)) => assert_eq!(line, 2),
        other => panic!("expected a malformed-row error, got {:?}", other),
    }
}

#[test]
fn duplicate_frame_is_fatal() {
    let content = b"header\n1,2,3,4,5,6,7,8,9\n2,2,3,4,5,6,7,8,9\n1,9,9,9,9,9,9,9,9\n";
    match parse_log(content) {
        Err(LogError::DuplicateFrame(f)) => assert_eq!(f, 1),
        other => panic!("expected a duplicate-frame error, got {:?}", other),
    }
}

#[test]
fn extra_fields_are_ignored() {
    let line: Vec<u8> = b"1,2,3,4,5,6,7,8,9,10,11".to_vec();
    let parsed = parse_record(&line).expect("row with trailing fields");
    assert_eq!(parsed.frame, 1);
    assert_eq!(parsed.score, 8);
}
