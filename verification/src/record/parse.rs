//! The line parser: one input line (without its newline) becomes one
//! [`Record`] or one [`ParseRecordError`].

use super::kind_of_tag;
use super::Record;
use super::RecordKind;
use super::RecordModel;
use vstd::prelude::*;

verus! {

/// Why a single field of a recognized record was rejected.
#[derive(Debug, Copy, Clone, PartialEq, Eq, Structural)]
pub enum InvalidFieldCause {
    /// The field had to be a base-10 non-negative integer and was not.
    ExpectedInteger,
    /// The field was an integer too large for its type.
    IntegerOverflow,
    /// The field had to be a non-empty path and was empty.
    ExpectedPath,
    /// The field had to be `-` or an integer and was empty.
    ExpectedDash,
}

/// Why one input line failed the LCOV grammar.
#[derive(Debug, Clone, PartialEq, Eq)]
pub enum ParseRecordError {
    /// The tag before the first `:` (or the whole line, when there is no
    /// `:`) names no known record kind; the unrecognized tag is carried.
    UnknownRecord(String),
    /// The tag was recognized but the comma-separated field list has the
    /// wrong arity.
    WrongFieldCount { expected: usize, got: usize, kind: RecordKind },
    /// The tag and arity were right but one field was malformed.
    InvalidField { kind: RecordKind, field_index: usize, cause: InvalidFieldCause },
}

/// The spec-level value of a [`ParseRecordError`].
pub enum ParseErrorModel {
    UnknownRecord(Seq<char>),
    WrongFieldCount { expected: usize, got: usize, kind: RecordKind },
    InvalidField { kind: RecordKind, field_index: usize, cause: InvalidFieldCause },
}

impl View for ParseRecordError {
    type V = ParseErrorModel;

    open spec fn view(&self) -> ParseErrorModel {
        match self {
            ParseRecordError::UnknownRecord(tag) => ParseErrorModel::UnknownRecord(tag@),
            ParseRecordError::WrongFieldCount { expected, got, kind } => {
                ParseErrorModel::WrongFieldCount {
                    expected: *expected,
                    got: *got,
                    kind: *kind,
                }
            },
            ParseRecordError::InvalidField { kind, field_index, cause } => {
                ParseErrorModel::InvalidField {
                    kind: *kind,
                    field_index: *field_index,
                    cause: *cause,
                }
            },
        }
    }
}

/// Index of the first occurrence of `c` in `s`, if any.
pub open spec fn find_char(s: Seq<char>, c: char) -> Option<int>
    decreases s.len(),
{
    if s.len() == 0 {
        None
    } else if s[0] == c {
        Some(0int)
    } else {
        match find_char(s.subrange(1, s.len() as int), c) {
            Some(i) => Some(i + 1),
            None => None,
        }
    }
}

/// What [`find_char`] returns: the first index holding `c`, or nothing
/// when `c` does not occur.
pub proof fn lemma_find_char(s: Seq<char>, c: char)
    ensures
        match find_char(s, c) {
            Some(i) => 0 <= i < s.len() && s[i] == c && (forall|j: int| 0 <= j < i ==> s[j] != c),
            None => forall|j: int| 0 <= j < s.len() ==> s[j] != c,
        },
    decreases s.len(),
{
    if s.len() > 0 && s[0] != c {
        let t = s.subrange(1, s.len() as int);
        lemma_find_char(t, c);
        assert(forall|j: int| 0 <= j < t.len() ==> t[j] == s[j + 1]);
        match find_char(t, c) {
            Some(i) => {
                assert(s[i + 1] == t[i]);
                assert forall|j: int| 0 <= j < i + 1 implies s[j] != c by {
                    if j > 0 {
                        assert(t[j - 1] != c);
                    }
                }
            },
            None => {
                assert forall|j: int| 0 <= j < s.len() implies s[j] != c by {
                    if j > 0 {
                        assert(t[j - 1] != c);
                    }
                }
            },
        }
    }
}

/// The comma-separated fields of `s`: splitting the empty text gives one
/// empty field, and every comma separates two fields.
pub open spec fn split_fields(s: Seq<char>) -> Seq<Seq<char>>
    decreases s.len(),
{
    match find_char(s, ',') {
        None => seq![s],
        Some(i) => if 0 <= i < s.len() {
            seq![s.subrange(0, i)] + split_fields(s.subrange(i + 1, s.len() as int))
        } else {
            seq![s]
        },
    }
}

/// Whether `c` is a base-10 digit.
pub open spec fn is_digit(c: char) -> bool {
    '0' <= c && c <= '9'
}

/// Whether `s` is a non-empty run of base-10 digits.
pub open spec fn is_digits(s: Seq<char>) -> bool {
    s.len() > 0 && forall|i: int| 0 <= i < s.len() ==> is_digit(s[i])
}

/// The base-10 value of a digit run.
pub open spec fn digits_val(s: Seq<char>) -> int
    decreases s.len(),
{
    if s.len() == 0 {
        0
    } else {
        digits_val(s.drop_last()) * 10 + (s.last() as int - '0' as int)
    }
}

/// The value of a digit run is non-negative.
pub proof fn lemma_digits_val_nonneg(s: Seq<char>)
    requires
        forall|i: int| 0 <= i < s.len() ==> is_digit(s[i]),
    ensures
        digits_val(s) >= 0,
    decreases s.len(),
{
    if s.len() > 0 {
        lemma_digits_val_nonneg(s.drop_last());
    }
}

/// Extending a digit run never shrinks its value: the value of a prefix is
/// at most the value of any longer prefix.
pub proof fn lemma_digits_val_prefix_le(s: Seq<char>, i: int, j: int)
    requires
        0 <= i <= j <= s.len(),
        forall|k: int| 0 <= k < s.len() ==> is_digit(s[k]),
    ensures
        digits_val(s.subrange(0, i)) <= digits_val(s.subrange(0, j)),
    decreases j - i,
{
    if i < j {
        lemma_digits_val_prefix_le(s, i, j - 1);
        let u = s.subrange(0, j);
        assert(u.drop_last() =~= s.subrange(0, j - 1));
        assert(is_digit(s[j - 1]));
        lemma_digits_val_nonneg(s.subrange(0, j - 1));
    }
}

/// Index of the first occurrence of `c` in `s`, by a linear scan.
fn find_char_str(s: &str, c: char) -> (r: Option<usize>)
    ensures
        match r {
            Some(i) => find_char(s@, c) == Some(i as int),
            None => find_char(s@, c) is None,
        },
{
    proof {
        lemma_find_char(s@, c);
    }
    let n: usize = s.unicode_len();
    let mut i: usize = 0;
    while i < n
        invariant
            n == s@.len(),
            0 <= i <= n,
            forall|j: int| 0 <= j < i ==> s@[j] != c,
            find_char(s@, c) matches Some(k) ==> 0 <= k < s@.len() && s@[k] == c && (forall|j: int|
                0 <= j < k ==> s@[j] != c),
            find_char(s@, c) is None ==> forall|j: int| 0 <= j < s@.len() ==> s@[j] != c,
        decreases n - i,
    {
        if s.get_char(i) == c {
            return Some(i);
        }
        i += 1;
    }
    None
}

/// Parse a whole field as a base-10 `u64`, or say why it is no such value.
fn parse_u64_value(s: &str) -> (r: Result<u64, InvalidFieldCause>)
    ensures
        match r {
            Ok(v) => is_digits(s@) && digits_val(s@) == v as int,
            Err(c) => (c == InvalidFieldCause::ExpectedInteger && !is_digits(s@)) || (c
                == InvalidFieldCause::IntegerOverflow && is_digits(s@) && digits_val(s@)
                > u64::MAX),
        },
{
    let n: usize = s.unicode_len();
    if n == 0 {
        return Err(InvalidFieldCause::ExpectedInteger);
    }
    let mut i: usize = 0;
    while i < n
        invariant
            n == s@.len(),
            0 <= i <= n,
            forall|j: int| 0 <= j < i ==> is_digit(s@[j]),
        decreases n - i,
    {
        let c = s.get_char(i);
        if !(c >= '0' && c <= '9') {
            return Err(InvalidFieldCause::ExpectedInteger);
        }
        i += 1;
    }
    assert(is_digits(s@));
    let mut acc: u64 = 0;
    let mut k: usize = 0;
    while k < n
        invariant
            n == s@.len(),
            is_digits(s@),
            0 <= k <= n,
            acc as int == digits_val(s@.subrange(0, k as int)),
        decreases n - k,
    {
        let c = s.get_char(k);
        let d: u64 = (c as u32 - '0' as u32) as u64;
        proof {
            let u = s@.subrange(0, k + 1);
            assert(u.drop_last() =~= s@.subrange(0, k as int));
            assert(u.last() == s@[k as int]);
            assert(digits_val(u) == acc as int * 10 + d as int);
        }
        if acc > (u64::MAX - d) / 10 {
            proof {
                let q = ((u64::MAX - d) as int) / 10;
                assert((u64::MAX - d) as int == 10 * q + ((u64::MAX - d) as int) % 10);
                assert(acc as int * 10 + d as int > u64::MAX);
                lemma_digits_val_prefix_le(s@, k + 1, n as int);
                assert(s@.subrange(0, n as int) =~= s@);
            }
            return Err(InvalidFieldCause::IntegerOverflow);
        }
        proof {
            let q = ((u64::MAX - d) as int) / 10;
            assert((u64::MAX - d) as int == 10 * q + ((u64::MAX - d) as int) % 10);
            assert(acc as int * 10 + d as int <= u64::MAX);
        }
        acc = acc * 10 + d;
        k += 1;
    }
    proof {
        assert(s@.subrange(0, n as int) =~= s@);
    }
    Ok(acc)
}

/// Parse a whole field as a base-10 `u32`, or say why it is no such value.
fn parse_u32_value(s: &str) -> (r: Result<u32, InvalidFieldCause>)
    ensures
        match r {
            Ok(v) => is_digits(s@) && digits_val(s@) == v as int,
            Err(c) => (c == InvalidFieldCause::ExpectedInteger && !is_digits(s@)) || (c
                == InvalidFieldCause::IntegerOverflow && is_digits(s@) && digits_val(s@)
                > u32::MAX),
        },
{
    match parse_u64_value(s) {
        Err(c) => Err(c),
        Ok(v) => if v <= u32::MAX as u64 {
            Ok(v as u32)
        } else {
            Err(InvalidFieldCause::IntegerOverflow)
        },
    }
}

/// A wrong-arity error, at the spec level.
pub open spec fn spec_wrong_count(k: RecordKind, expected: int, got: int) -> ParseErrorModel {
    ParseErrorModel::WrongFieldCount { expected: expected as usize, got: got as usize, kind: k }
}

/// A malformed-field error, at the spec level.
pub open spec fn spec_invalid(k: RecordKind, idx: int, cause: InvalidFieldCause) -> ParseErrorModel {
    ParseErrorModel::InvalidField { kind: k, field_index: idx as usize, cause }
}

/// What parsing field `idx` of a `k` record as a `u64` yields.
pub open spec fn spec_u64_field(k: RecordKind, idx: int, f: Seq<char>) -> Result<
    u64,
    ParseErrorModel,
> {
    if !is_digits(f) {
        Err(spec_invalid(k, idx, InvalidFieldCause::ExpectedInteger))
    } else if digits_val(f) > u64::MAX {
        Err(spec_invalid(k, idx, InvalidFieldCause::IntegerOverflow))
    } else {
        Ok(digits_val(f) as u64)
    }
}

/// What parsing field `idx` of a `k` record as a `u32` yields.
pub open spec fn spec_u32_field(k: RecordKind, idx: int, f: Seq<char>) -> Result<
    u32,
    ParseErrorModel,
> {
    if !is_digits(f) {
        Err(spec_invalid(k, idx, InvalidFieldCause::ExpectedInteger))
    } else if digits_val(f) > u32::MAX {
        Err(spec_invalid(k, idx, InvalidFieldCause::IntegerOverflow))
    } else {
        Ok(digits_val(f) as u32)
    }
}

/// What parsing the `taken` field of a `BRDA` record yields: `-` means
/// absent, anything else must be a `u64`.
pub open spec fn spec_taken_field(f: Seq<char>) -> Result<Option<u64>, ParseErrorModel> {
    if f == seq!['-'] {
        Ok(None)
    } else if f.len() == 0 {
        Err(spec_invalid(RecordKind::BranchData, 3, InvalidFieldCause::ExpectedDash))
    } else {
        match spec_u64_field(RecordKind::BranchData, 3, f) {
            Ok(v) => Ok(Some(v)),
            Err(e) => Err(e),
        }
    }
}

/// What parsing the fields of a record of kind `k` yields: the arity check,
/// then each field by its type from the grammar table.
pub open spec fn spec_parse_fields(k: RecordKind, fs: Seq<Seq<char>>) -> Result<
    RecordModel,
    ParseErrorModel,
> {
    match k {
        RecordKind::TestName => if fs.len() != 1 {
            Err(spec_wrong_count(k, 1, fs.len() as int))
        } else {
            Ok(RecordModel::TestName { name: fs[0] })
        },
        RecordKind::SourceFile => if fs.len() != 1 {
            Err(spec_wrong_count(k, 1, fs.len() as int))
        } else if fs[0].len() == 0 {
            Err(spec_invalid(k, 0, InvalidFieldCause::ExpectedPath))
        } else {
            Ok(RecordModel::SourceFile { path: fs[0] })
        },
        RecordKind::FunctionName => if fs.len() != 2 {
            Err(spec_wrong_count(k, 2, fs.len() as int))
        } else {
            match spec_u32_field(k, 0, fs[0]) {
                Err(e) => Err(e),
                Ok(l) => Ok(RecordModel::FunctionName { name: fs[1], start_line: l }),
            }
        },
        RecordKind::FunctionData => if fs.len() != 2 {
            Err(spec_wrong_count(k, 2, fs.len() as int))
        } else {
            match spec_u64_field(k, 0, fs[0]) {
                Err(e) => Err(e),
                Ok(c) => Ok(RecordModel::FunctionData { name: fs[1], count: c }),
            }
        },
        RecordKind::FunctionsFound => if fs.len() != 1 {
            Err(spec_wrong_count(k, 1, fs.len() as int))
        } else {
            match spec_u64_field(k, 0, fs[0]) {
                Err(e) => Err(e),
                Ok(v) => Ok(RecordModel::FunctionsFound { found: v }),
            }
        },
        RecordKind::FunctionsHit => if fs.len() != 1 {
            Err(spec_wrong_count(k, 1, fs.len() as int))
        } else {
            match spec_u64_field(k, 0, fs[0]) {
                Err(e) => Err(e),
                Ok(v) => Ok(RecordModel::FunctionsHit { hit: v }),
            }
        },
        RecordKind::BranchData => if fs.len() != 4 {
            Err(spec_wrong_count(k, 4, fs.len() as int))
        } else {
            match spec_u32_field(k, 0, fs[0]) {
                Err(e) => Err(e),
                Ok(line) => match spec_u32_field(k, 1, fs[1]) {
                    Err(e) => Err(e),
                    Ok(block) => match spec_u32_field(k, 2, fs[2]) {
                        Err(e) => Err(e),
                        Ok(branch) => match spec_taken_field(fs[3]) {
                            Err(e) => Err(e),
                            Ok(taken) => Ok(
                                RecordModel::BranchData { line, block, branch, taken },
                            ),
                        },
                    },
                },
            }
        },
        RecordKind::BranchesFound => if fs.len() != 1 {
            Err(spec_wrong_count(k, 1, fs.len() as int))
        } else {
            match spec_u64_field(k, 0, fs[0]) {
                Err(e) => Err(e),
                Ok(v) => Ok(RecordModel::BranchesFound { found: v }),
            }
        },
        RecordKind::BranchesHit => if fs.len() != 1 {
            Err(spec_wrong_count(k, 1, fs.len() as int))
        } else {
            match spec_u64_field(k, 0, fs[0]) {
                Err(e) => Err(e),
                Ok(v) => Ok(RecordModel::BranchesHit { hit: v }),
            }
        },
        RecordKind::LineData => if fs.len() != 2 && fs.len() != 3 {
            Err(spec_wrong_count(k, 3, fs.len() as int))
        } else {
            match spec_u32_field(k, 0, fs[0]) {
                Err(e) => Err(e),
                Ok(line) => match spec_u64_field(k, 1, fs[1]) {
                    Err(e) => Err(e),
                    Ok(count) => Ok(
                        RecordModel::LineData {
                            line,
                            count,
                            checksum: if fs.len() == 3 && fs[2].len() > 0 {
                                Some(fs[2])
                            } else {
                                None
                            },
                        },
                    ),
                },
            }
        },
        RecordKind::LinesFound => if fs.len() != 1 {
            Err(spec_wrong_count(k, 1, fs.len() as int))
        } else {
            match spec_u64_field(k, 0, fs[0]) {
                Err(e) => Err(e),
                Ok(v) => Ok(RecordModel::LinesFound { found: v }),
            }
        },
        RecordKind::LinesHit => if fs.len() != 1 {
            Err(spec_wrong_count(k, 1, fs.len() as int))
        } else {
            match spec_u64_field(k, 0, fs[0]) {
                Err(e) => Err(e),
                Ok(v) => Ok(RecordModel::LinesHit { hit: v }),
            }
        },
        RecordKind::EndOfRecord => if fs.len() != 0 {
            Err(spec_wrong_count(k, 0, fs.len() as int))
        } else {
            Ok(RecordModel::EndOfRecord)
        },
    }
}

/// The tag and field texts of one line: the tag is everything before the
/// first `:` (the whole line when there is none, and then there are no
/// fields at all).
pub open spec fn spec_tag_fields(line: Seq<char>) -> (Seq<char>, Seq<Seq<char>>) {
    match find_char(line, ':') {
        None => (line, Seq::<Seq<char>>::empty()),
        Some(i) => if 0 <= i < line.len() {
            (line.subrange(0, i), split_fields(line.subrange(i + 1, line.len() as int)))
        } else {
            (line, Seq::<Seq<char>>::empty())
        },
    }
}

/// What parsing one line yields: the record of the recognized tag with its
/// parsed fields, or the first grammar error.
pub open spec fn spec_parse(line: Seq<char>) -> Result<RecordModel, ParseErrorModel> {
    let tf = spec_tag_fields(line);
    match kind_of_tag(tf.0) {
        None => Err(ParseErrorModel::UnknownRecord(tf.0)),
        Some(k) => spec_parse_fields(k, tf.1),
    }
}

/// Whether the executable parse result `r` has the spec-level value `m`.
pub open spec fn parse_result_models(
    r: Result<Record, ParseRecordError>,
    m: Result<RecordModel, ParseErrorModel>,
) -> bool {
    match (r, m) {
        (Ok(rec), Ok(rm)) => rec@ == rm,
        (Err(e), Err(em)) => e@ == em,
        _ => false,
    }
}

/// Split a field list on commas, by repeated scans for the next comma.
fn split_fields_str<'a>(s: &'a str) -> (fs: Vec<&'a str>)
    ensures
        fs.deep_view() == split_fields(s@),
{
    let mut fs: Vec<&'a str> = Vec::new();
    let mut rest: &'a str = s;
    let mut done = false;
    while !done
        invariant
            !done ==> split_fields(s@) =~= fs.deep_view() + split_fields(rest@),
            done ==> split_fields(s@) =~= fs.deep_view(),
        decreases rest@.len(), (if done {
            0int
        } else {
            1int
        }),
    {
        proof {
            lemma_find_char(rest@, ',');
        }
        let ghost prev = fs.deep_view();
        let ghost prev_rest = rest@;
        match find_char_str(rest, ',') {
            None => {
                fs.push(rest);
                done = true;
                proof {
                    assert(split_fields(prev_rest) =~= seq![prev_rest]);
                    assert(fs.deep_view() =~= prev.push(prev_rest));
                }
            },
            Some(i) => {
                let head = rest.substring_char(0, i);
                let n: usize = rest.unicode_len();
                let tail = rest.substring_char(i + 1, n);
                fs.push(head);
                rest = tail;
                proof {
                    assert(split_fields(prev_rest) =~= seq![prev_rest.subrange(0, i as int)]
                        + split_fields(prev_rest.subrange(i + 1, prev_rest.len() as int)));
                    assert(fs.deep_view() =~= prev.push(head@));
                }
            },
        }
    }
    fs
}

/// The kind named by a tag, or `None` for an unrecognized tag.
fn tag_kind(tag: &str) -> (k: Option<RecordKind>)
    ensures
        k == kind_of_tag(tag@),
{
    let n: usize = tag.unicode_len();
    if n == 2 {
        let c0 = tag.get_char(0);
        let c1 = tag.get_char(1);
        if c0 == 'T' && c1 == 'N' {
            proof {
                assert(tag@ =~= RecordKind::TestName.spec_tag());
            }
            Some(RecordKind::TestName)
        } else if c0 == 'S' && c1 == 'F' {
            proof {
                assert(tag@ =~= RecordKind::SourceFile.spec_tag());
            }
            Some(RecordKind::SourceFile)
        } else if c0 == 'F' && c1 == 'N' {
            proof {
                assert(tag@ =~= RecordKind::FunctionName.spec_tag());
            }
            Some(RecordKind::FunctionName)
        } else if c0 == 'D' && c1 == 'A' {
            proof {
                assert(tag@ =~= RecordKind::LineData.spec_tag());
            }
            Some(RecordKind::LineData)
        } else if c0 == 'L' && c1 == 'F' {
            proof {
                assert(tag@ =~= RecordKind::LinesFound.spec_tag());
            }
            Some(RecordKind::LinesFound)
        } else if c0 == 'L' && c1 == 'H' {
            proof {
                assert(tag@ =~= RecordKind::LinesHit.spec_tag());
            }
            Some(RecordKind::LinesHit)
        } else {
            None
        }
    } else if n == 3 {
        let c0 = tag.get_char(0);
        let c1 = tag.get_char(1);
        let c2 = tag.get_char(2);
        if c0 == 'F' && c1 == 'N' && c2 == 'F' {
            proof {
                assert(tag@ =~= RecordKind::FunctionsFound.spec_tag());
            }
            Some(RecordKind::FunctionsFound)
        } else if c0 == 'F' && c1 == 'N' && c2 == 'H' {
            proof {
                assert(tag@ =~= RecordKind::FunctionsHit.spec_tag());
            }
            Some(RecordKind::FunctionsHit)
        } else if c0 == 'B' && c1 == 'R' && c2 == 'F' {
            proof {
                assert(tag@ =~= RecordKind::BranchesFound.spec_tag());
            }
            Some(RecordKind::BranchesFound)
        } else if c0 == 'B' && c1 == 'R' && c2 == 'H' {
            proof {
                assert(tag@ =~= RecordKind::BranchesHit.spec_tag());
            }
            Some(RecordKind::BranchesHit)
        } else {
            None
        }
    } else if n == 4 {
        let c0 = tag.get_char(0);
        let c1 = tag.get_char(1);
        let c2 = tag.get_char(2);
        let c3 = tag.get_char(3);
        if c0 == 'F' && c1 == 'N' && c2 == 'D' && c3 == 'A' {
            proof {
                assert(tag@ =~= RecordKind::FunctionData.spec_tag());
            }
            Some(RecordKind::FunctionData)
        } else if c0 == 'B' && c1 == 'R' && c2 == 'D' && c3 == 'A' {
            proof {
                assert(tag@ =~= RecordKind::BranchData.spec_tag());
            }
            Some(RecordKind::BranchData)
        } else {
            None
        }
    } else if n == 13 {
        let ok = tag.get_char(0) == 'e' && tag.get_char(1) == 'n' && tag.get_char(2) == 'd'
            && tag.get_char(3) == '_' && tag.get_char(4) == 'o' && tag.get_char(5) == 'f'
            && tag.get_char(6) == '_' && tag.get_char(7) == 'r' && tag.get_char(8) == 'e'
            && tag.get_char(9) == 'c' && tag.get_char(10) == 'o' && tag.get_char(11) == 'r'
            && tag.get_char(12) == 'd';
        if ok {
            proof {
                assert(tag@ =~= RecordKind::EndOfRecord.spec_tag());
            }
            Some(RecordKind::EndOfRecord)
        } else {
            None
        }
    } else {
        None
    }
}

/// Parse the `taken` field of a `BRDA` record.
fn parse_taken_field(f: &str) -> (r: Result<Option<u64>, ParseRecordError>)
    ensures
        match (r, spec_taken_field(f@)) {
            (Ok(a), Ok(b)) => a == b,
            (Err(e), Err(m)) => e@ == m,
            _ => false,
        },
{
    proof {
        assert(seq!['-'].len() == 1);
        assert(seq!['-'][0] == '-');
    }
    let n: usize = f.unicode_len();
    if n == 1 && f.get_char(0) == '-' {
        proof {
            assert(f@ =~= seq!['-']);
        }
        Ok(None)
    } else if n == 0 {
        Err(
            ParseRecordError::InvalidField {
                kind: RecordKind::BranchData,
                field_index: 3,
                cause: InvalidFieldCause::ExpectedDash,
            },
        )
    } else {
        match parse_u64_value(f) {
            Err(c) => Err(
                ParseRecordError::InvalidField {
                    kind: RecordKind::BranchData,
                    field_index: 3,
                    cause: c,
                },
            ),
            Ok(v) => Ok(Some(v)),
        }
    }
}

/// Parse the fields of a record whose kind is already known.
fn parse_fields(k: RecordKind, fs: &Vec<&str>) -> (r: Result<Record, ParseRecordError>)
    ensures
        parse_result_models(r, spec_parse_fields(k, fs.deep_view())),
{
    proof {
        assert(fs.deep_view().len() == fs@.len());
        assert(forall|i: int| 0 <= i < fs@.len() ==> fs.deep_view()[i] == fs@[i]@);
    }
    let got = fs.len();
    match k {
        RecordKind::TestName => {
            if got != 1 {
                Err(ParseRecordError::WrongFieldCount { expected: 1, got, kind: k })
            } else {
                Ok(Record::TestName { name: fs[0].to_owned() })
            }
        },
        RecordKind::SourceFile => {
            if got != 1 {
                Err(ParseRecordError::WrongFieldCount { expected: 1, got, kind: k })
            } else if fs[0].unicode_len() == 0 {
                Err(
                    ParseRecordError::InvalidField {
                        kind: k,
                        field_index: 0,
                        cause: InvalidFieldCause::ExpectedPath,
                    },
                )
            } else {
                Ok(Record::SourceFile { path: fs[0].to_owned() })
            }
        },
        RecordKind::FunctionName => {
            if got != 2 {
                Err(ParseRecordError::WrongFieldCount { expected: 2, got, kind: k })
            } else {
                match parse_u32_value(fs[0]) {
                    Err(c) => Err(
                        ParseRecordError::InvalidField { kind: k, field_index: 0, cause: c },
                    ),
                    Ok(l) => Ok(
                        Record::FunctionName { name: fs[1].to_owned(), start_line: l },
                    ),
                }
            }
        },
        RecordKind::FunctionData => {
            if got != 2 {
                Err(ParseRecordError::WrongFieldCount { expected: 2, got, kind: k })
            } else {
                match parse_u64_value(fs[0]) {
                    Err(c) => Err(
                        ParseRecordError::InvalidField { kind: k, field_index: 0, cause: c },
                    ),
                    Ok(c) => Ok(Record::FunctionData { name: fs[1].to_owned(), count: c }),
                }
            }
        },
        RecordKind::FunctionsFound => {
            if got != 1 {
                Err(ParseRecordError::WrongFieldCount { expected: 1, got, kind: k })
            } else {
                match parse_u64_value(fs[0]) {
                    Err(c) => Err(
                        ParseRecordError::InvalidField { kind: k, field_index: 0, cause: c },
                    ),
                    Ok(v) => Ok(Record::FunctionsFound { found: v }),
                }
            }
        },
        RecordKind::FunctionsHit => {
            if got != 1 {
                Err(ParseRecordError::WrongFieldCount { expected: 1, got, kind: k })
            } else {
                match parse_u64_value(fs[0]) {
                    Err(c) => Err(
                        ParseRecordError::InvalidField { kind: k, field_index: 0, cause: c },
                    ),
                    Ok(v) => Ok(Record::FunctionsHit { hit: v }),
                }
            }
        },
        RecordKind::BranchData => {
            if got != 4 {
                Err(ParseRecordError::WrongFieldCount { expected: 4, got, kind: k })
            } else {
                match parse_u32_value(fs[0]) {
                    Err(c) => Err(
                        ParseRecordError::InvalidField { kind: k, field_index: 0, cause: c },
                    ),
                    Ok(line) => match parse_u32_value(fs[1]) {
                        Err(c) => Err(
                            ParseRecordError::InvalidField { kind: k, field_index: 1, cause: c },
                        ),
                        Ok(block) => match parse_u32_value(fs[2]) {
                            Err(c) => Err(
                                ParseRecordError::InvalidField {
                                    kind: k,
                                    field_index: 2,
                                    cause: c,
                                },
                            ),
                            Ok(branch) => match parse_taken_field(fs[3]) {
                                Err(e) => Err(e),
                                Ok(taken) => Ok(
                                    Record::BranchData { line, block, branch, taken },
                                ),
                            },
                        },
                    },
                }
            }
        },
        RecordKind::BranchesFound => {
            if got != 1 {
                Err(ParseRecordError::WrongFieldCount { expected: 1, got, kind: k })
            } else {
                match parse_u64_value(fs[0]) {
                    Err(c) => Err(
                        ParseRecordError::InvalidField { kind: k, field_index: 0, cause: c },
                    ),
                    Ok(v) => Ok(Record::BranchesFound { found: v }),
                }
            }
        },
        RecordKind::BranchesHit => {
            if got != 1 {
                Err(ParseRecordError::WrongFieldCount { expected: 1, got, kind: k })
            } else {
                match parse_u64_value(fs[0]) {
                    Err(c) => Err(
                        ParseRecordError::InvalidField { kind: k, field_index: 0, cause: c },
                    ),
                    Ok(v) => Ok(Record::BranchesHit { hit: v }),
                }
            }
        },
        RecordKind::LineData => {
            if !(got == 2 || got == 3) {
                Err(ParseRecordError::WrongFieldCount { expected: 3, got, kind: k })
            } else {
                match parse_u32_value(fs[0]) {
                    Err(c) => Err(
                        ParseRecordError::InvalidField { kind: k, field_index: 0, cause: c },
                    ),
                    Ok(line) => match parse_u64_value(fs[1]) {
                        Err(c) => Err(
                            ParseRecordError::InvalidField { kind: k, field_index: 1, cause: c },
                        ),
                        Ok(count) => {
                            let checksum: Option<String> = if got == 3 && fs[2].unicode_len()
                                > 0 {
                                Some(fs[2].to_owned())
                            } else {
                                None
                            };
                            Ok(Record::LineData { line, count, checksum })
                        },
                    },
                }
            }
        },
        RecordKind::LinesFound => {
            if got != 1 {
                Err(ParseRecordError::WrongFieldCount { expected: 1, got, kind: k })
            } else {
                match parse_u64_value(fs[0]) {
                    Err(c) => Err(
                        ParseRecordError::InvalidField { kind: k, field_index: 0, cause: c },
                    ),
                    Ok(v) => Ok(Record::LinesFound { found: v }),
                }
            }
        },
        RecordKind::LinesHit => {
            if got != 1 {
                Err(ParseRecordError::WrongFieldCount { expected: 1, got, kind: k })
            } else {
                match parse_u64_value(fs[0]) {
                    Err(c) => Err(
                        ParseRecordError::InvalidField { kind: k, field_index: 0, cause: c },
                    ),
                    Ok(v) => Ok(Record::LinesHit { hit: v }),
                }
            }
        },
        RecordKind::EndOfRecord => {
            if got != 0 {
                Err(ParseRecordError::WrongFieldCount { expected: 0, got, kind: k })
            } else {
                Ok(Record::EndOfRecord)
            }
        },
    }
}

impl Record {
    /// Parse one tracefile line (without its trailing newline) into a
    /// record, or report the first grammar error.
    ///
    /// Parsing is total and stateless: every line yields either a record
    /// or a [`ParseRecordError`], exactly as [`spec_parse`] says.
    pub fn parse(line: &str) -> (r: Result<Record, ParseRecordError>)
        ensures
            parse_result_models(r, spec_parse(line@)),
    {
        proof {
            lemma_find_char(line@, ':');
        }
        let n: usize = line.unicode_len();
        match find_char_str(line, ':') {
            None => {
                match tag_kind(line) {
                    None => Err(ParseRecordError::UnknownRecord(line.to_owned())),
                    Some(k) => {
                        let fields: Vec<&str> = Vec::new();
                        proof {
                            assert(fields.deep_view() =~= Seq::<Seq<char>>::empty());
                        }
                        parse_fields(k, &fields)
                    },
                }
            },
            Some(i) => {
                let tag = line.substring_char(0, i);
                let rest = line.substring_char(i + 1, n);
                match tag_kind(tag) {
                    None => Err(ParseRecordError::UnknownRecord(tag.to_owned())),
                    Some(k) => {
                        let fields = split_fields_str(rest);
                        parse_fields(k, &fields)
                    },
                }
            },
        }
    }
}

} // verus!
