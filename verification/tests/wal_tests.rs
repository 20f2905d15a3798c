use broker::ingress::fetch_line;
use broker::wal::{
    classify_segment_name, encode_record_line, parse_line, read_from_segments, recover,
    scan_log, segment_file_name, sort_segment_files, Recovery, SegmentData, SegmentFile,
    SegmentKind, Wal, WalError, SEGMENT_MAX_BYTES,
};

fn fresh_wal() -> Wal {
    let rec = recover(&vec![], &[]).unwrap();
    assert_eq!(rec.next_offset, 0);
    assert_eq!(rec.segment_start_offset, 0);
    assert_eq!(rec.active_valid_len, 0);
    Wal::from_recovery(&rec)
}

#[test]
fn record_line_bytes_exact() {
    let line = encode_record_line(0, 7, "hello");
    assert_eq!(line, b"0\t7\taGVsbG8=\n".to_vec());
}

#[test]
fn record_line_empty_payload() {
    let line = encode_record_line(3, 4, "");
    assert_eq!(line, b"3\t4\t\n".to_vec());
}

#[test]
fn record_line_frames_cleanly() {
    let line = encode_record_line(12, 999, "a\tb\nc héllo");
    assert_eq!(line.iter().filter(|b| **b == 9).count(), 2);
    assert_eq!(line.iter().filter(|b| **b == 10).count(), 1);
    assert_eq!(*line.last().unwrap(), 10);
}

#[test]
fn parse_line_round_trip() {
    let data = b"3\t4\taGVsbG8=";
    let parsed = parse_line(data, 0, data.len()).unwrap();
    assert_eq!(parsed.0, 3);
    assert_eq!(parsed.1, 4);
    assert_eq!(parsed.2, b"hello".to_vec());
}

#[test]
fn parse_line_rejects_malformed() {
    let cases: [&[u8]; 6] = [
        b"3\t4",
        b"3\t4\tAA==\tmore",
        b"x\t4\tAA==",
        b"3\tx\tAA==",
        b"3\t4\tnot base64!",
        b"+3\t4\tAA==",
    ];
    for c in cases.iter() {
        assert!(parse_line(c, 0, c.len()).is_none());
    }
}

#[test]
fn parse_line_accepts_leading_zeros() {
    let data = b"007\t08\tAA==";
    let parsed = parse_line(data, 0, data.len()).unwrap();
    assert_eq!(parsed.0, 7);
    assert_eq!(parsed.1, 8);
}

#[test]
fn scan_counts_contiguous_prefix() {
    let data = b"0\t5\tAA==\n1\t6\tAA==\n";
    let (next, valid) = scan_log(data, 0).unwrap();
    assert_eq!(next, 2);
    assert_eq!(valid, data.len());
}

#[test]
fn scan_stops_at_offset_gap() {
    let data = b"0\t5\tAA==\n2\t6\tAA==\n";
    let (next, valid) = scan_log(data, 0).unwrap();
    assert_eq!(next, 1);
    assert_eq!(valid, 9);
}

#[test]
fn produce_then_fetch_round_trip() {
    let mut wal = fresh_wal();
    let line = wal.append_line(7, "hello");
    wal.commit_append();
    assert_eq!(wal.next_offset, 1);

    let records = read_from_segments(&vec![line.clone()], 0, 10).unwrap();
    assert_eq!(records.len(), 1);
    assert_eq!(records[0].offset, 0);
    assert_eq!(records[0].id, 7);
    assert_eq!(records[0].payload, "hello");
    let out = fetch_line(&records[0]);
    assert_eq!(out, "0\t7\thello\n");

    // restart: recovery of the same bytes finds the record again
    let rec = recover(&vec![], &line).unwrap();
    assert_eq!(rec.next_offset, 1);
    assert_eq!(rec.segment_start_offset, 0);
    assert_eq!(rec.active_valid_len, line.len());
    let again = read_from_segments(&vec![line], 0, 10).unwrap();
    assert_eq!(again[0].offset, 0);
    assert_eq!(again[0].payload, "hello");
}

#[test]
fn payload_with_tabs_newlines_non_ascii_round_trips() {
    let payload = "a\tb\nc héllo ✓";
    let line = encode_record_line(5, 9, payload);
    let recs = read_from_segments(&vec![line], 0, 10).unwrap();
    assert_eq!(recs.len(), 1);
    assert_eq!(recs[0].payload, payload);
}

#[test]
fn payload_with_trailing_whitespace_round_trips() {
    let payload = "ends in tab\t";
    let line = encode_record_line(0, 1, payload);
    let recs = read_from_segments(&vec![line], 0, 10).unwrap();
    assert_eq!(recs[0].payload, payload);
}

#[test]
fn torn_tail_is_discarded_on_recovery() {
    let mut wal = fresh_wal();
    let mut content = wal.append_line(1, "first");
    wal.commit_append();
    let keep = content.len();
    content.extend_from_slice(b"1\t2\tAA");  // no terminator: a torn write
    let rec = recover(&vec![], &content).unwrap();
    assert_eq!(rec.next_offset, 1);
    assert_eq!(rec.active_valid_len, keep);

    // the next produce after the restart takes the next offset, with no gap
    let mut wal2 = Wal::from_recovery(&rec);
    content.truncate(rec.active_valid_len);
    let line = wal2.append_line(3, "second");
    wal2.commit_append();
    content.extend_from_slice(&line);
    let recs = read_from_segments(&vec![content], 0, 10).unwrap();
    assert_eq!(recs.len(), 2);
    assert_eq!(recs[1].offset, 1);
    assert_eq!(recs[1].payload, "second");
}

#[test]
fn corrupt_line_in_active_truncates_there() {
    let mut wal = fresh_wal();
    let mut content = wal.append_line(1, "first");
    wal.commit_append();
    let keep = content.len();
    content.extend_from_slice(b"garbage\n2\t9\tAA==\n");
    let rec = recover(&vec![], &content).unwrap();
    assert_eq!(rec.next_offset, 1);
    assert_eq!(rec.active_valid_len, keep);
}

#[test]
fn corrupt_rotated_segment_is_fatal() {
    let seg = SegmentData { start: 0, data: b"garbage\n".to_vec() };
    assert!(matches!(recover(&vec![seg], &[]), Err(WalError::Corrupt)));
}

#[test]
fn rotated_start_offset_must_match() {
    let mut wal = fresh_wal();
    let line = wal.append_line(1, "a");
    let seg = SegmentData { start: 1, data: line };
    assert!(matches!(recover(&vec![seg], &[]), Err(WalError::Corrupt)));
}

#[test]
fn recovery_spans_rotated_and_active_segments() {
    let mut wal = fresh_wal();
    let mut seg0 = wal.append_line(10, "m0");
    wal.commit_append();
    seg0.extend_from_slice(&wal.append_line(11, "m1"));
    wal.commit_append();
    wal.complete_rotation();
    assert_eq!(wal.segment_start_offset, 2);
    let mut active = wal.append_line(12, "m2");
    wal.commit_append();
    active.extend_from_slice(&wal.append_line(13, "m3"));
    wal.commit_append();

    let rec = recover(&vec![SegmentData { start: 0, data: seg0.clone() }], &active).unwrap();
    assert_eq!(rec.next_offset, 4);
    assert_eq!(rec.segment_start_offset, 2);
    assert_eq!(rec.active_valid_len, active.len());

    let recs = read_from_segments(&vec![seg0, active], 0, 100).unwrap();
    assert_eq!(recs.len(), 4);
    for (k, r) in recs.iter().enumerate() {
        assert_eq!(r.offset, k as u64);
    }
    assert_eq!(recs[0].payload, "m0");
    assert_eq!(recs[3].payload, "m3");
    assert_eq!(recs[3].id, 13);
}

#[test]
fn read_filters_by_offset_and_limit() {
    let mut wal = fresh_wal();
    let mut content = Vec::new();
    for i in 0..5u64 {
        content.extend_from_slice(&wal.append_line(100 + i, &format!("msg{}", i)));
        wal.commit_append();
    }
    let recs = read_from_segments(&vec![content.clone()], 2, 2).unwrap();
    assert_eq!(recs.len(), 2);
    assert_eq!(recs[0].offset, 2);
    assert_eq!(recs[1].offset, 3);
    assert_eq!(recs[0].payload, "msg2");

    let all = read_from_segments(&vec![content.clone()], 0, 100).unwrap();
    assert_eq!(all.len(), 5);

    let none = read_from_segments(&vec![content.clone()], 0, 0).unwrap();
    assert!(none.is_empty());

    let past_end = read_from_segments(&vec![content], 9, 10).unwrap();
    assert!(past_end.is_empty());
}

#[test]
fn read_rejects_undecodable_payload_only_when_returned() {
    // "/w==" is valid base64 but decodes to a byte that is not UTF-8
    let data = b"0\t1\t/w==\n".to_vec();
    assert!(matches!(
        read_from_segments(&vec![data.clone()], 0, 10),
        Err(WalError::BadPayload)
    ));
    // the same record filtered out by `from` is never decoded
    let ok = read_from_segments(&vec![data.clone()], 1, 10).unwrap();
    assert!(ok.is_empty());
    // recovery accepts it: validity on disk is base64, not UTF-8
    let rec = recover(&vec![], &data).unwrap();
    assert_eq!(rec.next_offset, 1);
}

#[test]
fn rotation_threshold_is_sixteen_mebibytes() {
    let wal = fresh_wal();
    assert_eq!(SEGMENT_MAX_BYTES, 16 * 1024 * 1024);
    assert!(!wal.should_rotate(SEGMENT_MAX_BYTES - 1));
    assert!(wal.should_rotate(SEGMENT_MAX_BYTES));
    assert!(wal.should_rotate(SEGMENT_MAX_BYTES + 1));
}

#[test]
fn rotated_name_embeds_segment_start() {
    let mut wal = fresh_wal();
    for _ in 0..3 {
        let _ = wal.append_line(0, "x");
        wal.commit_append();
    }
    assert_eq!(wal.rotated_file_name(), "wal.0.log");
    wal.complete_rotation();
    assert_eq!(wal.segment_start_offset, 3);
    assert_eq!(wal.rotated_file_name(), "wal.3.log");
}

#[test]
fn segment_names_classify() {
    assert!(matches!(
        classify_segment_name("wal.log"),
        Some(SegmentKind::Active)
    ));
    assert!(matches!(
        classify_segment_name("wal.5.log"),
        Some(SegmentKind::Rotated(5))
    ));
    assert!(matches!(
        classify_segment_name("wal.18446744073709551615.log"),
        Some(SegmentKind::Rotated(u64::MAX))
    ));
    assert!(classify_segment_name("wal..log").is_none());
    assert!(classify_segment_name("wal.5.log.tmp").is_none());
    assert!(classify_segment_name("other.txt").is_none());
    assert!(classify_segment_name("").is_none());
}

#[test]
fn segment_file_name_round_trips() {
    assert_eq!(segment_file_name(42), "wal.42.log");
    assert!(matches!(
        classify_segment_name(&segment_file_name(42)),
        Some(SegmentKind::Rotated(42))
    ));
}

#[test]
fn segment_files_sort_by_start() {
    let files = vec![
        SegmentFile { start: 40, name: "wal.40.log".to_string() },
        SegmentFile { start: 0, name: "wal.0.log".to_string() },
        SegmentFile { start: 20, name: "wal.20.log".to_string() },
    ];
    let sorted = sort_segment_files(files);
    let starts: Vec<u64> = sorted.iter().map(|f| f.start).collect();
    assert_eq!(starts, vec![0, 20, 40]);
    assert_eq!(sorted[0].name, "wal.0.log");
}

#[test]
fn committed_appends_all_survive_restart() {
    let mut wal = fresh_wal();
    let mut content = Vec::new();
    for i in 0..50u64 {
        content.extend_from_slice(&wal.append_line(i, &format!("m{}", i)));
        wal.commit_append();
    }
    let rec = recover(&vec![], &content).unwrap();
    assert_eq!(rec.next_offset, 50);
    let recs = read_from_segments(&vec![content], 0, 1000).unwrap();
    assert_eq!(recs.len(), 50);
    for (k, r) in recs.iter().enumerate() {
        assert_eq!(r.offset, k as u64);
        assert_eq!(r.id, k as u64);
        assert_eq!(r.payload, format!("m{}", k));
    }
}

#[test]
fn from_recovery_carries_offsets() {
    let wal = Wal::from_recovery(&Recovery {
        next_offset: 9,
        segment_start_offset: 4,
        active_valid_len: 123,
    });
    assert_eq!(wal.next_offset, 9);
    assert_eq!(wal.segment_start_offset, 4);
}
