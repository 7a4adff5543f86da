use lcov::LineFilter;
use lcov::LineRange;
use lcov::ParseRecordError;
use lcov::ReadError;
use lcov::Reader;
use lcov::Record;
use lcov::Report;

fn lines_of(ls: &[&str]) -> Vec<String> {
    ls.iter().map(|l| l.to_string()).collect()
}

fn drain(reader: &mut Reader) -> Vec<Result<Record, ReadError>> {
    let mut out = Vec::new();
    while let Some(item) = reader.next() {
        out.push(item);
    }
    out
}

#[test]
fn reads_records_in_order() {
    let mut r = Reader::new(lines_of(&["TN:t", "SF:/a.c", "DA:1,2", "end_of_record"]), None);
    let out = drain(&mut r);
    assert_eq!(out.len(), 4);
    assert_eq!(out[0], Ok(Record::TestName { name: "t".to_string() }));
    assert_eq!(out[2], Ok(Record::LineData { line: 1, count: 2, checksum: None }));
    assert_eq!(out[3], Ok(Record::EndOfRecord));
}

#[test]
fn blank_lines_are_skipped_and_numbering_counts_them() {
    let mut r = Reader::new(lines_of(&["", "XY:1,2"]), None);
    let out = drain(&mut r);
    assert_eq!(out.len(), 1);
    assert_eq!(
        out[0],
        Err(ReadError::Parse {
            error: ParseRecordError::UnknownRecord("XY".to_string()),
            line: 2,
            raw: "XY:1,2".to_string(),
        })
    );
}

#[test]
fn unknown_tag_line_one() {
    let mut r = Reader::new(lines_of(&["XY:1,2"]), None);
    let out = drain(&mut r);
    assert_eq!(
        out[0],
        Err(ReadError::Parse {
            error: ParseRecordError::UnknownRecord("XY".to_string()),
            line: 1,
            raw: "XY:1,2".to_string(),
        })
    );
}

#[test]
fn carriage_returns_are_stripped() {
    let mut r = Reader::new(lines_of(&["DA:1,2\r", "\r"]), None);
    let out = drain(&mut r);
    assert_eq!(out.len(), 1);
    assert_eq!(out[0], Ok(Record::LineData { line: 1, count: 2, checksum: None }));
}

#[test]
fn reader_is_restartable() {
    let ls = lines_of(&["SF:/a.c", "DA:1,1", "end_of_record"]);
    let mut r1 = Reader::new(ls.clone(), None);
    let mut r2 = Reader::new(ls, None);
    assert_eq!(drain(&mut r1), drain(&mut r2));
}

#[test]
fn filter_drops_fnda_when_fn_dropped() {
    let filter = LineFilter::from_ranges(&vec![LineRange { lo: 20, hi: 30 }]);
    let mut r = Reader::new(
        lines_of(&["SF:/a.c", "FN:10,f", "FNDA:3,f", "FN:25,g", "FNDA:7,g", "end_of_record"]),
        Some(filter),
    );
    let out = drain(&mut r);
    let recs: Vec<Record> = out.into_iter().map(|x| x.unwrap()).collect();
    assert!(!recs.contains(&Record::FunctionName { name: "f".to_string(), start_line: 10 }));
    assert!(!recs.contains(&Record::FunctionData { name: "f".to_string(), count: 3 }));
    assert!(recs.contains(&Record::FunctionName { name: "g".to_string(), start_line: 25 }));
    assert!(recs.contains(&Record::FunctionData { name: "g".to_string(), count: 7 }));
}

#[test]
fn filter_scope_resets_at_end_of_record() {
    let filter = LineFilter::from_ranges(&vec![LineRange { lo: 20, hi: 30 }]);
    let mut r = Reader::new(
        lines_of(&[
            "SF:/a.c",
            "FN:25,g",
            "end_of_record",
            "SF:/b.c",
            "FNDA:7,g",
            "end_of_record",
        ]),
        Some(filter),
    );
    let out = drain(&mut r);
    let recs: Vec<Record> = out.into_iter().map(|x| x.unwrap()).collect();
    // g was kept in the first scope only; the second scope has no FN g.
    assert!(!recs.contains(&Record::FunctionData { name: "g".to_string(), count: 7 }));
}

#[test]
fn filter_keeps_and_drops_lines_and_branches() {
    let filter = LineFilter::from_ranges(&vec![LineRange { lo: 10, hi: 10 }]);
    let mut r = Reader::new(
        lines_of(&["SF:/a.c", "DA:10,1", "DA:11,1", "BRDA:10,0,0,1", "BRDA:11,0,0,1",
            "end_of_record"]),
        Some(filter),
    );
    let out = drain(&mut r);
    let recs: Vec<Record> = out.into_iter().map(|x| x.unwrap()).collect();
    assert_eq!(recs.len(), 4);
    assert!(recs.contains(&Record::LineData { line: 10, count: 1, checksum: None }));
    assert!(!recs.contains(&Record::LineData { line: 11, count: 1, checksum: None }));
    assert!(recs.contains(&Record::BranchData { line: 10, block: 0, branch: 0, taken: Some(1) }));
}

#[test]
fn filter_normalizes_ranges() {
    let filter = LineFilter::from_ranges(&vec![
        LineRange { lo: 5, hi: 9 },
        LineRange { lo: 1, hi: 4 },
        LineRange { lo: 7, hi: 12 },
        LineRange { lo: 30, hi: 20 },
    ]);
    // [1,4] touches [5,9], which overlaps [7,12]: one range [1,12];
    // the empty range [30,20] covers nothing.
    assert_eq!(filter.ranges.len(), 1);
    assert_eq!((filter.ranges[0].lo, filter.ranges[0].hi), (1, 12));
    assert!(filter.contains(1));
    assert!(filter.contains(12));
    assert!(!filter.contains(13));
    assert!(!filter.contains(25));
}

#[test]
fn empty_filter_covers_nothing() {
    let filter = LineFilter::from_ranges(&Vec::new());
    assert!(!filter.contains(1));
    let mut r = Reader::new(lines_of(&["SF:/a.c", "DA:1,1", "end_of_record"]), Some(filter));
    let out = drain(&mut r);
    let recs: Vec<Record> = out.into_iter().map(|x| x.unwrap()).collect();
    // SF and end_of_record pass; the DA is dropped.
    assert_eq!(recs.len(), 2);
}

#[test]
fn filter_monotone_on_stream() {
    let narrow = LineFilter::from_ranges(&vec![LineRange { lo: 10, hi: 10 }]);
    let wide = LineFilter::from_ranges(&vec![LineRange { lo: 10, hi: 25 }]);
    let ls = ["SF:/a.c", "FN:10,f", "FNDA:1,f", "DA:10,1", "DA:20,1", "BRDA:20,0,0,1",
        "end_of_record"];
    let mut rn = Reader::new(lines_of(&ls), Some(narrow));
    let mut rw = Reader::new(lines_of(&ls), Some(wide));
    let out_n: Vec<Record> = drain(&mut rn).into_iter().map(|x| x.unwrap()).collect();
    let out_w: Vec<Record> = drain(&mut rw).into_iter().map(|x| x.unwrap()).collect();
    // Everything the narrow filter keeps, the wide filter keeps too.
    for r in out_n.iter() {
        assert!(out_w.contains(r));
    }
    // And the accumulated narrow report is a sub-report of the wide one.
    let rep_n = Report::from_records(&out_n).unwrap();
    let rep_w = Report::from_records(&out_w).unwrap();
    let sn = &rep_n.files[0].summary;
    let sw = &rep_w.files[0].summary;
    assert!(sn.lines_found() <= sw.lines_found());
    for le in sn.lines.iter() {
        assert!(sw.lines.iter().any(|x| x == le));
    }
}

#[test]
fn reader_then_report_end_to_end() {
    let mut r = Reader::new(
        lines_of(&["TN:t1", "SF:/a.c", "DA:10,5", "DA:11,0", "end_of_record"]),
        None,
    );
    let mut recs = Vec::new();
    while let Some(item) = r.next() {
        recs.push(item.expect("no errors in this stream"));
    }
    let rep = Report::from_records(&recs).expect("accumulate");
    assert_eq!(rep.files[0].summary.lines_found(), 2);
    assert_eq!(rep.files[0].summary.lines_hit(), 1);
}

#[test]
fn io_error_carries_line_and_cause() {
    // The reader itself never produces Io; callers that feed lines from a
    // fallible source construct it. Its payload is carried unchanged.
    let e = ReadError::Io { cause: "disk gone".to_string(), line: 3 };
    match e {
        ReadError::Io { cause, line } => {
            assert_eq!(cause, "disk gone");
            assert_eq!(line, 3);
        },
        _ => panic!("wrong variant"),
    }
}
