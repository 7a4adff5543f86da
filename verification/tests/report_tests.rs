use lcov::MergeError;
use lcov::Record;
use lcov::Report;

fn records_of(lines: &[&str]) -> Vec<Record> {
    lines.iter().map(|l| Record::parse(l).expect(l)).collect()
}

fn report_of(lines: &[&str]) -> Report {
    Report::from_records(&records_of(lines)).expect("accumulate")
}

#[test]
fn minimal_file() {
    let rep = report_of(&["TN:t1", "SF:/a.c", "DA:10,5", "DA:11,0", "end_of_record"]);
    assert_eq!(rep.files.len(), 1);
    let fe = &rep.files[0];
    assert_eq!(fe.path, "/a.c");
    assert_eq!(fe.summary.test_name, "t1");
    assert_eq!(fe.summary.lines.len(), 2);
    assert_eq!(fe.summary.lines[0].line, 10);
    assert_eq!(fe.summary.lines[0].count, 5);
    assert_eq!(fe.summary.lines[1].line, 11);
    assert_eq!(fe.summary.lines[1].count, 0);
    assert_eq!(fe.summary.lines_found(), 2);
    assert_eq!(fe.summary.lines_hit(), 1);
}

#[test]
fn branch_with_dash() {
    let rep = report_of(&["SF:/a.c", "BRDA:7,0,0,-", "BRDA:7,0,1,3", "end_of_record"]);
    let s = &rep.files[0].summary;
    assert_eq!(s.branches.len(), 2);
    assert_eq!((s.branches[0].line, s.branches[0].block, s.branches[0].branch), (7, 0, 0));
    assert_eq!(s.branches[0].taken, None);
    assert_eq!((s.branches[1].line, s.branches[1].block, s.branches[1].branch), (7, 0, 1));
    assert_eq!(s.branches[1].taken, Some(3));
    assert_eq!(s.branches_found(), 2);
    assert_eq!(s.branches_hit(), 1);
}

#[test]
fn checksum_conflict_on_merge() {
    let a = report_of(&["SF:/a.c", "DA:10,1,abc", "end_of_record"]);
    let b = report_of(&["SF:/a.c", "DA:10,1,def", "end_of_record"]);
    let err = a.merge(&b).expect_err("conflicting checksums");
    assert_eq!(
        err,
        MergeError::ChecksumMismatch {
            path: "/a.c".to_string(),
            line: 10,
            left: "abc".to_string(),
            right: "def".to_string(),
        }
    );
}

#[test]
fn equal_checksums_survive_merge() {
    let a = report_of(&["SF:/a.c", "DA:10,1,abc", "end_of_record"]);
    let b = report_of(&["SF:/a.c", "DA:10,2,abc", "end_of_record"]);
    let m = a.merge(&b).expect("merge");
    let s = &m.files[0].summary;
    assert_eq!(s.lines[0].count, 3);
    assert_eq!(s.lines[0].checksum, Some("abc".to_string()));
}

#[test]
fn split_report_same_file_twice() {
    let rep = report_of(&[
        "SF:/a.c",
        "DA:5,2",
        "end_of_record",
        "SF:/a.c",
        "DA:5,3",
        "DA:6,1",
        "end_of_record",
    ]);
    assert_eq!(rep.files.len(), 1);
    let s = &rep.files[0].summary;
    assert_eq!(s.lines.len(), 2);
    assert_eq!((s.lines[0].line, s.lines[0].count), (5, 5));
    assert_eq!((s.lines[1].line, s.lines[1].count), (6, 1));
    assert_eq!(s.lines_found(), 2);
    assert_eq!(s.lines_hit(), 2);
}

#[test]
fn function_line_backfill_after_fnda() {
    let rep = report_of(&["SF:/a.c", "FNDA:3,f", "FN:9,f", "end_of_record"]);
    let s = &rep.files[0].summary;
    assert_eq!(s.functions.len(), 1);
    assert_eq!(s.functions[0].name, "f");
    assert_eq!(s.functions[0].start_line, 9);
    assert_eq!(s.functions[0].count, 3);
    assert_eq!(s.functions_found(), 1);
    assert_eq!(s.functions_hit(), 1);
}

#[test]
fn later_function_line_wins() {
    let rep = report_of(&["SF:/a.c", "FN:5,f", "FN:8,f", "end_of_record"]);
    assert_eq!(rep.files[0].summary.functions[0].start_line, 8);
}

#[test]
fn counter_overflow_on_accumulate() {
    let recs = records_of(&["SF:/a.c", "DA:10,18446744073709551615", "DA:10,1", "end_of_record"]);
    assert_eq!(Report::from_records(&recs), Err(MergeError::CounterOverflow));
}

#[test]
fn function_line_mismatch_on_merge() {
    let a = report_of(&["SF:/a.c", "FN:5,f", "end_of_record"]);
    let b = report_of(&["SF:/a.c", "FN:6,f", "end_of_record"]);
    let err = a.merge(&b).expect_err("conflicting start lines");
    assert_eq!(
        err,
        MergeError::FunctionLineMismatch {
            path: "/a.c".to_string(),
            name: "f".to_string(),
            left: 5,
            right: 6,
        }
    );
}

#[test]
fn merge_start_line_prefers_non_zero() {
    let a = report_of(&["SF:/a.c", "FNDA:2,f", "end_of_record"]);
    let b = report_of(&["SF:/a.c", "FN:6,f", "FNDA:1,f", "end_of_record"]);
    let m = a.merge(&b).expect("merge");
    let s = &m.files[0].summary;
    assert_eq!(s.functions[0].start_line, 6);
    assert_eq!(s.functions[0].count, 3);
}

#[test]
fn merge_with_empty_is_identity() {
    let a = report_of(&["TN:t", "SF:/a.c", "DA:1,2,x", "FN:1,f", "BRDA:1,0,0,4",
        "end_of_record"]);
    let empty = Report::new();
    assert_eq!(a.merge(&empty).expect("right identity"), a);
    assert_eq!(empty.merge(&a).expect("left identity"), a);
}

#[test]
fn merge_is_commutative_in_record_set() {
    let a = report_of(&["SF:/a.c", "DA:1,2", "DA:3,1,x", "end_of_record", "SF:/b.c", "DA:7,0",
        "end_of_record"]);
    let b = report_of(&["SF:/a.c", "DA:1,5", "DA:4,1", "end_of_record", "SF:/c.c", "DA:9,9",
        "end_of_record"]);
    // No test names anywhere, so no tie-break: both orders agree exactly.
    assert_eq!(a.merge(&b).expect("ab"), b.merge(&a).expect("ba"));
}

#[test]
fn merge_is_associative() {
    let a = report_of(&["SF:/a.c", "DA:1,1", "end_of_record"]);
    let b = report_of(&["SF:/a.c", "DA:1,2", "DA:2,1", "end_of_record"]);
    let c = report_of(&["SF:/b.c", "DA:5,3", "end_of_record", "SF:/a.c", "DA:2,2",
        "end_of_record"]);
    let ab_c = a.merge(&b).unwrap().merge(&c).unwrap();
    let a_bc = a.merge(&b.merge(&c).unwrap()).unwrap();
    assert_eq!(ab_c, a_bc);
}

#[test]
fn merge_test_name_left_wins() {
    let a = report_of(&["TN:left", "SF:/a.c", "DA:1,1", "end_of_record"]);
    let b = report_of(&["TN:right", "SF:/a.c", "DA:1,1", "end_of_record"]);
    let m = a.merge(&b).expect("merge");
    assert_eq!(m.files[0].summary.test_name, "left");
}

#[test]
fn round_trip_through_records() {
    let rep = report_of(&[
        "TN:t1",
        "SF:/a.c",
        "FN:30,zeta",
        "FN:10,alpha",
        "FNDA:3,zeta",
        "DA:10,5,ck",
        "DA:11,0",
        "BRDA:12,0,0,-",
        "BRDA:12,0,1,2",
        "end_of_record",
        "SF:/b.c",
        "DA:1,1",
        "end_of_record",
    ]);
    let emitted = rep.records();
    let back = Report::from_records(&emitted).expect("re-accumulate");
    assert_eq!(back, rep);
}

#[test]
fn records_emission_order() {
    let rep = report_of(&[
        "SF:/b.c",
        "DA:1,1",
        "end_of_record",
        "TN:t",
        "SF:/a.c",
        "FN:30,alpha",
        "FN:10,beta",
        "FNDA:1,alpha",
        "end_of_record",
    ]);
    let out = rep.records();
    // Files in path order: /a.c before /b.c; TN first; FN by start line.
    assert_eq!(out[0], Record::TestName { name: "t".to_string() });
    assert_eq!(out[1], Record::SourceFile { path: "/a.c".to_string() });
    assert_eq!(
        out[2],
        Record::FunctionName { name: "beta".to_string(), start_line: 10 }
    );
    assert_eq!(
        out[3],
        Record::FunctionName { name: "alpha".to_string(), start_line: 30 }
    );
    // FNDA in name order, then the derived totals.
    assert_eq!(out[4], Record::FunctionData { name: "alpha".to_string(), count: 1 });
    assert_eq!(out[5], Record::FunctionData { name: "beta".to_string(), count: 0 });
    assert_eq!(out[6], Record::FunctionsFound { found: 2 });
    assert_eq!(out[7], Record::FunctionsHit { hit: 1 });
}

#[test]
fn counter_records_are_ignored() {
    let rep = report_of(&["SF:/a.c", "DA:1,1", "LF:99", "LH:99", "FNF:9", "BRF:9",
        "end_of_record"]);
    let s = &rep.files[0].summary;
    assert_eq!(s.lines_found(), 1);
    assert_eq!(s.lines_hit(), 1);
    assert_eq!(s.functions_found(), 0);
    assert_eq!(s.branches_found(), 0);
}

#[test]
fn buffered_test_name_attaches_to_next_scope() {
    let rep = report_of(&["TN:first", "SF:/a.c", "DA:1,1", "end_of_record"]);
    assert_eq!(rep.files[0].summary.test_name, "first");
    // A record before any SF opens the empty-path file.
    let rep2 = report_of(&["DA:3,1", "SF:/a.c", "DA:1,1", "end_of_record"]);
    assert_eq!(rep2.files.len(), 2);
    assert_eq!(rep2.files[0].path, "");
    assert_eq!(rep2.files[0].summary.lines[0].line, 3);
}
