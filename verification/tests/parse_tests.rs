use lcov::InvalidFieldCause;
use lcov::ParseRecordError;
use lcov::Record;
use lcov::RecordKind;

fn parse_ok(line: &str) -> Record {
    Record::parse(line).expect(line)
}

fn parse_err(line: &str) -> ParseRecordError {
    Record::parse(line).expect_err(line)
}

#[test]
fn parses_every_kind() {
    assert_eq!(parse_ok("TN:t1"), Record::TestName { name: "t1".to_string() });
    assert_eq!(parse_ok("SF:/a.c"), Record::SourceFile { path: "/a.c".to_string() });
    assert_eq!(
        parse_ok("FN:3,main"),
        Record::FunctionName { name: "main".to_string(), start_line: 3 }
    );
    assert_eq!(
        parse_ok("FNDA:7,main"),
        Record::FunctionData { name: "main".to_string(), count: 7 }
    );
    assert_eq!(parse_ok("FNF:1"), Record::FunctionsFound { found: 1 });
    assert_eq!(parse_ok("FNH:2"), Record::FunctionsHit { hit: 2 });
    assert_eq!(
        parse_ok("BRDA:7,0,1,3"),
        Record::BranchData { line: 7, block: 0, branch: 1, taken: Some(3) }
    );
    assert_eq!(
        parse_ok("BRDA:7,0,0,-"),
        Record::BranchData { line: 7, block: 0, branch: 0, taken: None }
    );
    assert_eq!(parse_ok("BRF:2"), Record::BranchesFound { found: 2 });
    assert_eq!(parse_ok("BRH:1"), Record::BranchesHit { hit: 1 });
    assert_eq!(
        parse_ok("DA:10,5"),
        Record::LineData { line: 10, count: 5, checksum: None }
    );
    assert_eq!(
        parse_ok("DA:10,5,abc"),
        Record::LineData { line: 10, count: 5, checksum: Some("abc".to_string()) }
    );
    assert_eq!(parse_ok("LF:2"), Record::LinesFound { found: 2 });
    assert_eq!(parse_ok("LH:1"), Record::LinesHit { hit: 1 });
    assert_eq!(parse_ok("end_of_record"), Record::EndOfRecord);
}

#[test]
fn empty_checksum_field_is_absent() {
    assert_eq!(
        parse_ok("DA:10,5,"),
        Record::LineData { line: 10, count: 5, checksum: None }
    );
}

#[test]
fn empty_test_name_is_accepted() {
    assert_eq!(parse_ok("TN:"), Record::TestName { name: String::new() });
}

#[test]
fn unknown_tag_is_reported_verbatim() {
    assert_eq!(parse_err("XY:1,2"), ParseRecordError::UnknownRecord("XY".to_string()));
    assert_eq!(parse_err(""), ParseRecordError::UnknownRecord(String::new()));
    assert_eq!(parse_err("junk"), ParseRecordError::UnknownRecord("junk".to_string()));
}

#[test]
fn wrong_field_count() {
    assert_eq!(
        parse_err("DA:5"),
        ParseRecordError::WrongFieldCount { expected: 3, got: 1, kind: RecordKind::LineData }
    );
    assert_eq!(
        parse_err("TN"),
        ParseRecordError::WrongFieldCount { expected: 1, got: 0, kind: RecordKind::TestName }
    );
    assert_eq!(
        parse_err("end_of_record:x"),
        ParseRecordError::WrongFieldCount { expected: 0, got: 1, kind: RecordKind::EndOfRecord }
    );
    assert_eq!(
        parse_err("BRDA:1,2,3"),
        ParseRecordError::WrongFieldCount { expected: 4, got: 3, kind: RecordKind::BranchData }
    );
}

#[test]
fn invalid_fields() {
    assert_eq!(
        parse_err("DA:x,5"),
        ParseRecordError::InvalidField {
            kind: RecordKind::LineData,
            field_index: 0,
            cause: InvalidFieldCause::ExpectedInteger,
        }
    );
    // 2^32 does not fit the u32 line field.
    assert_eq!(
        parse_err("DA:4294967296,5"),
        ParseRecordError::InvalidField {
            kind: RecordKind::LineData,
            field_index: 0,
            cause: InvalidFieldCause::IntegerOverflow,
        }
    );
    // 2^64 does not fit the u64 count field.
    assert_eq!(
        parse_err("FNDA:18446744073709551616,f"),
        ParseRecordError::InvalidField {
            kind: RecordKind::FunctionData,
            field_index: 0,
            cause: InvalidFieldCause::IntegerOverflow,
        }
    );
    assert_eq!(
        parse_err("SF:"),
        ParseRecordError::InvalidField {
            kind: RecordKind::SourceFile,
            field_index: 0,
            cause: InvalidFieldCause::ExpectedPath,
        }
    );
    assert_eq!(
        parse_err("BRDA:1,0,0,"),
        ParseRecordError::InvalidField {
            kind: RecordKind::BranchData,
            field_index: 3,
            cause: InvalidFieldCause::ExpectedDash,
        }
    );
    assert_eq!(
        parse_err("BRDA:1,0,0,x"),
        ParseRecordError::InvalidField {
            kind: RecordKind::BranchData,
            field_index: 3,
            cause: InvalidFieldCause::ExpectedInteger,
        }
    );
}

#[test]
fn largest_counts_parse() {
    assert_eq!(
        parse_ok("FNDA:18446744073709551615,f"),
        Record::FunctionData { name: "f".to_string(), count: u64::MAX }
    );
    assert_eq!(
        parse_ok("DA:4294967295,0"),
        Record::LineData { line: u32::MAX, count: 0, checksum: None }
    );
}

#[test]
fn parse_is_total_on_junk() {
    // Never panics, whatever the line holds.
    let lines = [
        ":", "::", ",", "DA:", "DA:,", "DA:1,2,3,4", "TN:a,b", "BRDA:-1,0,0,1", "FN:,",
        "end_of_record:", "  TN:x", "da:1,2",
    ];
    for l in lines.iter() {
        let _ = Record::parse(l);
    }
}

#[test]
fn kind_and_tag_round_trip() {
    let cases: Vec<(Record, RecordKind, &str)> = vec![
        (parse_ok("TN:t"), RecordKind::TestName, "TN"),
        (parse_ok("SF:/x"), RecordKind::SourceFile, "SF"),
        (parse_ok("FN:1,f"), RecordKind::FunctionName, "FN"),
        (parse_ok("FNDA:1,f"), RecordKind::FunctionData, "FNDA"),
        (parse_ok("FNF:0"), RecordKind::FunctionsFound, "FNF"),
        (parse_ok("FNH:0"), RecordKind::FunctionsHit, "FNH"),
        (parse_ok("BRDA:1,0,0,-"), RecordKind::BranchData, "BRDA"),
        (parse_ok("BRF:0"), RecordKind::BranchesFound, "BRF"),
        (parse_ok("BRH:0"), RecordKind::BranchesHit, "BRH"),
        (parse_ok("DA:1,0"), RecordKind::LineData, "DA"),
        (parse_ok("LF:0"), RecordKind::LinesFound, "LF"),
        (parse_ok("LH:0"), RecordKind::LinesHit, "LH"),
        (parse_ok("end_of_record"), RecordKind::EndOfRecord, "end_of_record"),
    ];
    for (rec, kind, tag) in cases.into_iter() {
        assert_eq!(rec.kind(), kind);
        assert_eq!(kind.as_str(), tag);
        // The tag followed by the same valid fields parses back to the
        // same kind.
        let rebuilt = match kind {
            RecordKind::EndOfRecord => kind.as_str().to_string(),
            RecordKind::TestName | RecordKind::SourceFile => format!("{}:x", kind.as_str()),
            RecordKind::FunctionName => format!("{}:1,f", kind.as_str()),
            RecordKind::FunctionData => format!("{}:1,f", kind.as_str()),
            RecordKind::BranchData => format!("{}:1,0,0,-", kind.as_str()),
            RecordKind::LineData => format!("{}:1,0", kind.as_str()),
            _ => format!("{}:0", kind.as_str()),
        };
        assert_eq!(Record::parse(&rebuilt).unwrap().kind(), kind);
    }
}
