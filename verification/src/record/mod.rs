//! The LCOV record model: one tagged variant per record kind, plus a flat
//! kind discriminator for payload-free dispatch.

pub use self::parse::InvalidFieldCause;
pub use self::parse::ParseErrorModel;
pub use self::parse::ParseRecordError;
pub use self::parse::parse_result_models;
pub use self::parse::spec_parse;
use vstd::prelude::*;

mod parse;

verus! {

/// One LCOV record, as read from a single tracefile line.
///
/// Paths are kept verbatim as text; `taken` and `checksum` are explicit
/// optionals so that "absent" and "zero"/"empty" stay distinct.
#[derive(Debug, Clone, PartialEq, Eq)]
pub enum Record {
    /// A `TN` record.
    TestName {
        /// Test name.
        name: String,
    },
    /// An `SF` record.
    SourceFile {
        /// Path to the source file, absolute or relative, kept verbatim.
        path: String,
    },
    /// An `FN` record.
    FunctionName {
        /// Function name.
        name: String,
        /// Line number of the function start.
        start_line: u32,
    },
    /// An `FNDA` record.
    FunctionData {
        /// Function name.
        name: String,
        /// Execution count.
        count: u64,
    },
    /// An `FNF` record.
    FunctionsFound {
        /// Number of functions found.
        found: u64,
    },
    /// An `FNH` record.
    FunctionsHit {
        /// Number of functions hit.
        hit: u64,
    },
    /// A `BRDA` record. `block` and `branch` are tool-internal branch ids.
    BranchData {
        /// Line number.
        line: u32,
        /// Block number.
        block: u32,
        /// Branch number.
        branch: u32,
        /// How often the branch was taken; `None` when the field was `-`.
        taken: Option<u64>,
    },
    /// A `BRF` record.
    BranchesFound {
        /// Number of branches found.
        found: u64,
    },
    /// A `BRH` record.
    BranchesHit {
        /// Number of branches hit.
        hit: u64,
    },
    /// A `DA` record.
    LineData {
        /// Line number.
        line: u32,
        /// Execution count.
        count: u64,
        /// Per-line source fingerprint; `None` when absent or empty.
        checksum: Option<String>,
    },
    /// An `LF` record.
    LinesFound {
        /// Number of instrumented lines.
        found: u64,
    },
    /// An `LH` record.
    LinesHit {
        /// Number of lines with a non-zero execution count.
        hit: u64,
    },
    /// An `end_of_record` record.
    EndOfRecord,
}

/// The spec-level value of a [`Record`]: each text field is its character
/// sequence, everything else is carried unchanged.
pub enum RecordModel {
    TestName { name: Seq<char> },
    SourceFile { path: Seq<char> },
    FunctionName { name: Seq<char>, start_line: u32 },
    FunctionData { name: Seq<char>, count: u64 },
    FunctionsFound { found: u64 },
    FunctionsHit { hit: u64 },
    BranchData { line: u32, block: u32, branch: u32, taken: Option<u64> },
    BranchesFound { found: u64 },
    BranchesHit { hit: u64 },
    LineData { line: u32, count: u64, checksum: Option<Seq<char>> },
    LinesFound { found: u64 },
    LinesHit { hit: u64 },
    EndOfRecord,
}

impl View for Record {
    type V = RecordModel;

    open spec fn view(&self) -> RecordModel {
        match self {
            Record::TestName { name } => RecordModel::TestName { name: name@ },
            Record::SourceFile { path } => RecordModel::SourceFile { path: path@ },
            Record::FunctionName { name, start_line } => RecordModel::FunctionName {
                name: name@,
                start_line: *start_line,
            },
            Record::FunctionData { name, count } => RecordModel::FunctionData {
                name: name@,
                count: *count,
            },
            Record::FunctionsFound { found } => RecordModel::FunctionsFound { found: *found },
            Record::FunctionsHit { hit } => RecordModel::FunctionsHit { hit: *hit },
            Record::BranchData { line, block, branch, taken } => RecordModel::BranchData {
                line: *line,
                block: *block,
                branch: *branch,
                taken: *taken,
            },
            Record::BranchesFound { found } => RecordModel::BranchesFound { found: *found },
            Record::BranchesHit { hit } => RecordModel::BranchesHit { hit: *hit },
            Record::LineData { line, count, checksum } => RecordModel::LineData {
                line: *line,
                count: *count,
                checksum: match checksum {
                    Some(c) => Some(c@),
                    None => None,
                },
            },
            Record::LinesFound { found } => RecordModel::LinesFound { found: *found },
            Record::LinesHit { hit } => RecordModel::LinesHit { hit: *hit },
            Record::EndOfRecord => RecordModel::EndOfRecord,
        }
    }
}

/// The kind of a record, without its payload.
#[derive(Debug, Copy, Clone, PartialEq, Eq, Structural)]
pub enum RecordKind {
    TestName,
    SourceFile,
    FunctionName,
    FunctionData,
    FunctionsFound,
    FunctionsHit,
    BranchData,
    BranchesFound,
    BranchesHit,
    LineData,
    LinesFound,
    LinesHit,
    EndOfRecord,
}

impl RecordModel {
    /// The kind of a record value, at the spec level.
    pub open spec fn kind(self) -> RecordKind {
        match self {
            RecordModel::TestName { .. } => RecordKind::TestName,
            RecordModel::SourceFile { .. } => RecordKind::SourceFile,
            RecordModel::FunctionName { .. } => RecordKind::FunctionName,
            RecordModel::FunctionData { .. } => RecordKind::FunctionData,
            RecordModel::FunctionsFound { .. } => RecordKind::FunctionsFound,
            RecordModel::FunctionsHit { .. } => RecordKind::FunctionsHit,
            RecordModel::BranchData { .. } => RecordKind::BranchData,
            RecordModel::BranchesFound { .. } => RecordKind::BranchesFound,
            RecordModel::BranchesHit { .. } => RecordKind::BranchesHit,
            RecordModel::LineData { .. } => RecordKind::LineData,
            RecordModel::LinesFound { .. } => RecordKind::LinesFound,
            RecordModel::LinesHit { .. } => RecordKind::LinesHit,
            RecordModel::EndOfRecord => RecordKind::EndOfRecord,
        }
    }
}

impl Record {
    /// The kind of this record.
    pub fn kind(&self) -> (k: RecordKind)
        ensures
            k == self@.kind(),
    {
        match self {
            Record::TestName { .. } => RecordKind::TestName,
            Record::SourceFile { .. } => RecordKind::SourceFile,
            Record::FunctionName { .. } => RecordKind::FunctionName,
            Record::FunctionData { .. } => RecordKind::FunctionData,
            Record::FunctionsFound { .. } => RecordKind::FunctionsFound,
            Record::FunctionsHit { .. } => RecordKind::FunctionsHit,
            Record::BranchData { .. } => RecordKind::BranchData,
            Record::BranchesFound { .. } => RecordKind::BranchesFound,
            Record::BranchesHit { .. } => RecordKind::BranchesHit,
            Record::LineData { .. } => RecordKind::LineData,
            Record::LinesFound { .. } => RecordKind::LinesFound,
            Record::LinesHit { .. } => RecordKind::LinesHit,
            Record::EndOfRecord => RecordKind::EndOfRecord,
        }
    }
}

impl RecordKind {
    /// The canonical tag of this kind, at the spec level.
    pub open spec fn spec_tag(self) -> Seq<char> {
        match self {
            RecordKind::TestName => seq!['T', 'N'],
            RecordKind::SourceFile => seq!['S', 'F'],
            RecordKind::FunctionName => seq!['F', 'N'],
            RecordKind::FunctionData => seq!['F', 'N', 'D', 'A'],
            RecordKind::FunctionsFound => seq!['F', 'N', 'F'],
            RecordKind::FunctionsHit => seq!['F', 'N', 'H'],
            RecordKind::BranchData => seq!['B', 'R', 'D', 'A'],
            RecordKind::BranchesFound => seq!['B', 'R', 'F'],
            RecordKind::BranchesHit => seq!['B', 'R', 'H'],
            RecordKind::LineData => seq!['D', 'A'],
            RecordKind::LinesFound => seq!['L', 'F'],
            RecordKind::LinesHit => seq!['L', 'H'],
            RecordKind::EndOfRecord => seq![
                'e', 'n', 'd', '_', 'o', 'f', '_', 'r', 'e', 'c', 'o', 'r', 'd',
            ],
        }
    }

    /// The canonical tag string of this kind (`"TN"`, `"SF"`, ...,
    /// `"end_of_record"`).
    pub fn as_str(&self) -> (r: &'static str)
        ensures
            r@ == self.spec_tag(),
    {
        match *self {
            RecordKind::TestName => {
                proof {
                    reveal_strlit("TN");
                    assert("TN"@ =~= self.spec_tag());
                }
                "TN"
            },
            RecordKind::SourceFile => {
                proof {
                    reveal_strlit("SF");
                    assert("SF"@ =~= self.spec_tag());
                }
                "SF"
            },
            RecordKind::FunctionName => {
                proof {
                    reveal_strlit("FN");
                    assert("FN"@ =~= self.spec_tag());
                }
                "FN"
            },
            RecordKind::FunctionData => {
                proof {
                    reveal_strlit("FNDA");
                    assert("FNDA"@ =~= self.spec_tag());
                }
                "FNDA"
            },
            RecordKind::FunctionsFound => {
                proof {
                    reveal_strlit("FNF");
                    assert("FNF"@ =~= self.spec_tag());
                }
                "FNF"
            },
            RecordKind::FunctionsHit => {
                proof {
                    reveal_strlit("FNH");
                    assert("FNH"@ =~= self.spec_tag());
                }
                "FNH"
            },
            RecordKind::BranchData => {
                proof {
                    reveal_strlit("BRDA");
                    assert("BRDA"@ =~= self.spec_tag());
                }
                "BRDA"
            },
            RecordKind::BranchesFound => {
                proof {
                    reveal_strlit("BRF");
                    assert("BRF"@ =~= self.spec_tag());
                }
                "BRF"
            },
            RecordKind::BranchesHit => {
                proof {
                    reveal_strlit("BRH");
                    assert("BRH"@ =~= self.spec_tag());
                }
                "BRH"
            },
            RecordKind::LineData => {
                proof {
                    reveal_strlit("DA");
                    assert("DA"@ =~= self.spec_tag());
                }
                "DA"
            },
            RecordKind::LinesFound => {
                proof {
                    reveal_strlit("LF");
                    assert("LF"@ =~= self.spec_tag());
                }
                "LF"
            },
            RecordKind::LinesHit => {
                proof {
                    reveal_strlit("LH");
                    assert("LH"@ =~= self.spec_tag());
                }
                "LH"
            },
            RecordKind::EndOfRecord => {
                proof {
                    reveal_strlit("end_of_record");
                    assert("end_of_record"@ =~= self.spec_tag());
                }
                "end_of_record"
            },
        }
    }
}

/// The kind whose canonical tag is `t`, if any.
pub open spec fn kind_of_tag(t: Seq<char>) -> Option<RecordKind> {
    if t == RecordKind::TestName.spec_tag() {
        Some(RecordKind::TestName)
    } else if t == RecordKind::SourceFile.spec_tag() {
        Some(RecordKind::SourceFile)
    } else if t == RecordKind::FunctionName.spec_tag() {
        Some(RecordKind::FunctionName)
    } else if t == RecordKind::FunctionData.spec_tag() {
        Some(RecordKind::FunctionData)
    } else if t == RecordKind::FunctionsFound.spec_tag() {
        Some(RecordKind::FunctionsFound)
    } else if t == RecordKind::FunctionsHit.spec_tag() {
        Some(RecordKind::FunctionsHit)
    } else if t == RecordKind::BranchData.spec_tag() {
        Some(RecordKind::BranchData)
    } else if t == RecordKind::BranchesFound.spec_tag() {
        Some(RecordKind::BranchesFound)
    } else if t == RecordKind::BranchesHit.spec_tag() {
        Some(RecordKind::BranchesHit)
    } else if t == RecordKind::LineData.spec_tag() {
        Some(RecordKind::LineData)
    } else if t == RecordKind::LinesFound.spec_tag() {
        Some(RecordKind::LinesFound)
    } else if t == RecordKind::LinesHit.spec_tag() {
        Some(RecordKind::LinesHit)
    } else if t == RecordKind::EndOfRecord.spec_tag() {
        Some(RecordKind::EndOfRecord)
    } else {
        None
    }
}

/// Each kind is recovered from its own canonical tag: the discriminator
/// round-trips through [`RecordKind::as_str`] and the tag table that the
/// parser uses.
pub proof fn lemma_kind_tag_round_trip(k: RecordKind)
    ensures
        kind_of_tag(k.spec_tag()) == Some(k),
{
    assert(RecordKind::TestName.spec_tag().len() == 2);
    assert(RecordKind::TestName.spec_tag()[0] == 'T');
    assert(RecordKind::TestName.spec_tag()[1] == 'N');
    assert(RecordKind::SourceFile.spec_tag().len() == 2);
    assert(RecordKind::SourceFile.spec_tag()[0] == 'S');
    assert(RecordKind::SourceFile.spec_tag()[1] == 'F');
    assert(RecordKind::FunctionName.spec_tag().len() == 2);
    assert(RecordKind::FunctionName.spec_tag()[0] == 'F');
    assert(RecordKind::FunctionName.spec_tag()[1] == 'N');
    assert(RecordKind::FunctionData.spec_tag().len() == 4);
    assert(RecordKind::FunctionData.spec_tag()[0] == 'F');
    assert(RecordKind::FunctionData.spec_tag()[2] == 'D');
    assert(RecordKind::FunctionsFound.spec_tag().len() == 3);
    assert(RecordKind::FunctionsFound.spec_tag()[0] == 'F');
    assert(RecordKind::FunctionsFound.spec_tag()[2] == 'F');
    assert(RecordKind::FunctionsHit.spec_tag().len() == 3);
    assert(RecordKind::FunctionsHit.spec_tag()[0] == 'F');
    assert(RecordKind::FunctionsHit.spec_tag()[2] == 'H');
    assert(RecordKind::BranchData.spec_tag().len() == 4);
    assert(RecordKind::BranchData.spec_tag()[0] == 'B');
    assert(RecordKind::BranchData.spec_tag()[2] == 'D');
    assert(RecordKind::BranchesFound.spec_tag().len() == 3);
    assert(RecordKind::BranchesFound.spec_tag()[0] == 'B');
    assert(RecordKind::BranchesFound.spec_tag()[2] == 'F');
    assert(RecordKind::BranchesHit.spec_tag().len() == 3);
    assert(RecordKind::BranchesHit.spec_tag()[0] == 'B');
    assert(RecordKind::BranchesHit.spec_tag()[2] == 'H');
    assert(RecordKind::LineData.spec_tag().len() == 2);
    assert(RecordKind::LineData.spec_tag()[0] == 'D');
    assert(RecordKind::LineData.spec_tag()[1] == 'A');
    assert(RecordKind::LinesFound.spec_tag().len() == 2);
    assert(RecordKind::LinesFound.spec_tag()[0] == 'L');
    assert(RecordKind::LinesFound.spec_tag()[1] == 'F');
    assert(RecordKind::LinesHit.spec_tag().len() == 2);
    assert(RecordKind::LinesHit.spec_tag()[0] == 'L');
    assert(RecordKind::LinesHit.spec_tag()[1] == 'H');
    assert(RecordKind::EndOfRecord.spec_tag().len() == 13);
    assert(RecordKind::EndOfRecord.spec_tag()[0] == 'e');
}

} // verus!
