//! The in-memory aggregation of a record stream: a report maps each
//! source-file path to a per-file summary of line, function and branch
//! coverage, and offers merging and re-emission as records.
//!
//! All four maps are stored as vectors sorted strictly by their key, so a
//! report has one canonical shape, iteration is deterministic, and two
//! reports with the same contents are equal.

use crate::record::Record;
use crate::record::RecordModel;
use vstd::prelude::*;

verus! {

/// Strict lexicographic order on character sequences.
pub open spec fn lex_lt(a: Seq<char>, b: Seq<char>) -> bool
    decreases a.len(),
{
    if b.len() == 0 {
        false
    } else if a.len() == 0 {
        true
    } else if a[0] != b[0] {
        (a[0] as int) < (b[0] as int)
    } else {
        lex_lt(a.subrange(1, a.len() as int), b.subrange(1, b.len() as int))
    }
}

/// Exactly one of `lex_lt(a, b)`, `a == b`, `lex_lt(b, a)` holds.
pub proof fn lemma_lex_trichotomy(a: Seq<char>, b: Seq<char>)
    ensures
        lex_lt(a, b) || lex_lt(b, a) || a == b,
        lex_lt(a, b) ==> !lex_lt(b, a) && a != b,
        lex_lt(b, a) ==> !lex_lt(a, b) && b != a,
    decreases a.len(),
{
    if a.len() > 0 && b.len() > 0 && a[0] == b[0] {
        let a1 = a.subrange(1, a.len() as int);
        let b1 = b.subrange(1, b.len() as int);
        lemma_lex_trichotomy(a1, b1);
        if a1 == b1 {
            assert(a.len() == b.len());
            assert forall|k: int| 0 <= k < a.len() implies a[k] == b[k] by {
                if k > 0 {
                    assert(a1[k - 1] == b1[k - 1]);
                }
            }
            assert(a =~= b);
        }
        if a == b {
            assert(a1 =~= b1);
        }
    } else {
        if a == b && a.len() > 0 {
            assert(a[0] == b[0]);
        }
    }
}

/// Lexicographic order is transitive.
pub proof fn lemma_lex_transitive(a: Seq<char>, b: Seq<char>, c: Seq<char>)
    requires
        lex_lt(a, b),
        lex_lt(b, c),
    ensures
        lex_lt(a, c),
    decreases a.len(),
{
    if b.len() == 0 {
    } else if a.len() == 0 {
    } else if c.len() == 0 {
    } else {
        if a[0] == b[0] && b[0] == c[0] {
            lemma_lex_transitive(
                a.subrange(1, a.len() as int),
                b.subrange(1, b.len() as int),
                c.subrange(1, c.len() as int),
            );
        }
    }
}

/// Compare two pieces of text in lexicographic order.
pub fn str_lt(a: &str, b: &str) -> (r: bool)
    ensures
        r == lex_lt(a@, b@),
{
    let na: usize = a.unicode_len();
    let nb: usize = b.unicode_len();
    let mut i: usize = 0;
    proof {
        assert(a@.subrange(0, na as int) =~= a@);
        assert(b@.subrange(0, nb as int) =~= b@);
    }
    loop
        invariant
            na == a@.len(),
            nb == b@.len(),
            0 <= i <= na,
            0 <= i <= nb,
            lex_lt(a@, b@) == lex_lt(
                a@.subrange(i as int, na as int),
                b@.subrange(i as int, nb as int),
            ),
        decreases na - i,
    {
        let ghost sa = a@.subrange(i as int, na as int);
        let ghost sb = b@.subrange(i as int, nb as int);
        if i >= nb {
            proof {
                assert(sb.len() == 0);
            }
            return false;
        }
        if i >= na {
            proof {
                assert(sa.len() == 0 && sb.len() > 0);
            }
            return true;
        }
        let ca = a.get_char(i);
        let cb = b.get_char(i);
        proof {
            assert(sa[0] == a@[i as int] && sb[0] == b@[i as int]);
        }
        if ca != cb {
            return ca < cb;
        }
        i += 1;
        proof {
            assert(sa.subrange(1, sa.len() as int) =~= a@.subrange(i as int, na as int));
            assert(sb.subrange(1, sb.len() as int) =~= b@.subrange(i as int, nb as int));
        }
    }
}

/// The first index of `s` whose element satisfies `p`, or nothing.
pub open spec fn seq_find<T>(s: Seq<T>, p: spec_fn(T) -> bool) -> Option<int>
    decreases s.len(),
{
    if s.len() == 0 {
        None
    } else if p(s[0]) {
        Some(0int)
    } else {
        match seq_find(s.subrange(1, s.len() as int), p) {
            Some(i) => Some(i + 1),
            None => None,
        }
    }
}

/// What [`seq_find`] returns: the first matching index, or nothing when no
/// element matches.
pub proof fn lemma_seq_find<T>(s: Seq<T>, p: spec_fn(T) -> bool)
    ensures
        match seq_find(s, p) {
            Some(i) => 0 <= i < s.len() && p(s[i]) && (forall|j: int| 0 <= j < i ==> !p(s[j])),
            None => forall|j: int| 0 <= j < s.len() ==> !p(s[j]),
        },
    decreases s.len(),
{
    if s.len() > 0 && !p(s[0]) {
        let t = s.subrange(1, s.len() as int);
        lemma_seq_find(t, p);
        assert(forall|j: int| 0 <= j < t.len() ==> t[j] == s[j + 1]);
        match seq_find(t, p) {
            Some(i) => {
                assert forall|j: int| 0 <= j < i + 1 implies !p(s[j]) by {
                    if j > 0 {
                        assert(!p(t[j - 1]));
                    }
                }
            },
            None => {
                assert forall|j: int| 0 <= j < s.len() implies !p(s[j]) by {
                    if j > 0 {
                        assert(!p(t[j - 1]));
                    }
                }
            },
        }
    }
}

/// The number of leading elements of `s` that satisfy `p`: the position at
/// which a new element belongs when `p` says "sorts before the new key".
pub open spec fn seq_span<T>(s: Seq<T>, p: spec_fn(T) -> bool) -> int
    decreases s.len(),
{
    if s.len() == 0 {
        0
    } else if !p(s[0]) {
        0
    } else {
        1 + seq_span(s.subrange(1, s.len() as int), p)
    }
}

/// What [`seq_span`] returns: everything before it satisfies `p`, and the
/// element at it (if any) does not.
pub proof fn lemma_seq_span<T>(s: Seq<T>, p: spec_fn(T) -> bool)
    ensures
        0 <= seq_span(s, p) <= s.len(),
        forall|j: int| 0 <= j < seq_span(s, p) ==> p(s[j]),
        seq_span(s, p) < s.len() ==> !p(s[seq_span(s, p)]),
    decreases s.len(),
{
    if s.len() > 0 && p(s[0]) {
        let t = s.subrange(1, s.len() as int);
        lemma_seq_span(t, p);
        assert(forall|j: int| 0 <= j < t.len() ==> t[j] == s[j + 1]);
        assert forall|j: int| 0 <= j < seq_span(s, p) implies p(s[j]) by {
            if j > 0 {
                assert(p(t[j - 1]));
            }
        }
    }
}

/// One line of one file: its total execution count and optional checksum.
#[derive(Debug, Clone, PartialEq, Eq)]
pub struct LineEntry {
    /// Line number.
    pub line: u32,
    /// Total execution count.
    pub count: u64,
    /// Per-line fingerprint; never `Some` of empty text.
    pub checksum: Option<String>,
}

/// One function of one file.
#[derive(Debug, Clone, PartialEq, Eq)]
pub struct FunctionEntry {
    /// Function name.
    pub name: String,
    /// Line of the function start; 0 while only `FNDA` has named it.
    pub start_line: u32,
    /// Total execution count.
    pub count: u64,
}

/// One branch of one file, keyed by line, block and branch ids.
#[derive(Debug, Clone, PartialEq, Eq)]
pub struct BranchEntry {
    /// Line number.
    pub line: u32,
    /// Block id.
    pub block: u32,
    /// Branch id.
    pub branch: u32,
    /// How often the branch was taken; `None` when never measured.
    pub taken: Option<u64>,
}

/// The coverage summary of one source file.
#[derive(Debug, Clone, PartialEq, Eq)]
pub struct FileSummary {
    /// The most recent test name seen for this file; empty when none.
    pub test_name: String,
    /// Line coverage, sorted strictly by line.
    pub lines: Vec<LineEntry>,
    /// Function coverage, sorted strictly by name.
    pub functions: Vec<FunctionEntry>,
    /// Branch coverage, sorted strictly by (line, block, branch).
    pub branches: Vec<BranchEntry>,
}

/// One file of a report.
#[derive(Debug, Clone, PartialEq, Eq)]
pub struct FileEntry {
    /// The source-file path, kept verbatim.
    pub path: String,
    /// Its summary.
    pub summary: FileSummary,
}

/// A coverage report: per-file summaries, sorted strictly by path.
#[derive(Debug, Clone, PartialEq, Eq)]
pub struct Report {
    /// The files of the report.
    pub files: Vec<FileEntry>,
}

/// Spec-level value of a [`LineEntry`].
pub struct LineEntryModel {
    pub line: u32,
    pub count: u64,
    pub checksum: Option<Seq<char>>,
}

/// Spec-level value of a [`FunctionEntry`].
pub struct FunctionEntryModel {
    pub name: Seq<char>,
    pub start_line: u32,
    pub count: u64,
}

/// Spec-level value of a [`BranchEntry`].
pub struct BranchEntryModel {
    pub line: u32,
    pub block: u32,
    pub branch: u32,
    pub taken: Option<u64>,
}

/// Spec-level value of a [`FileSummary`].
pub struct FileSummaryModel {
    pub test_name: Seq<char>,
    pub lines: Seq<LineEntryModel>,
    pub functions: Seq<FunctionEntryModel>,
    pub branches: Seq<BranchEntryModel>,
}

/// Spec-level value of a [`FileEntry`].
pub struct FileEntryModel {
    pub path: Seq<char>,
    pub summary: FileSummaryModel,
}

/// The spec-level values of a vector of line entries.
pub open spec fn lines_model(v: Seq<LineEntry>) -> Seq<LineEntryModel> {
    Seq::new(v.len(), |i: int| v[i]@)
}

/// The spec-level values of a vector of function entries.
pub open spec fn fns_model(v: Seq<FunctionEntry>) -> Seq<FunctionEntryModel> {
    Seq::new(v.len(), |i: int| v[i]@)
}

/// The spec-level values of a vector of branch entries.
pub open spec fn brs_model(v: Seq<BranchEntry>) -> Seq<BranchEntryModel> {
    Seq::new(v.len(), |i: int| v[i]@)
}

impl View for LineEntry {
    type V = LineEntryModel;

    open spec fn view(&self) -> LineEntryModel {
        LineEntryModel {
            line: self.line,
            count: self.count,
            checksum: match self.checksum {
                Some(ref c) => Some(c@),
                None => None,
            },
        }
    }
}

impl View for FunctionEntry {
    type V = FunctionEntryModel;

    open spec fn view(&self) -> FunctionEntryModel {
        FunctionEntryModel { name: self.name@, start_line: self.start_line, count: self.count }
    }
}

impl View for BranchEntry {
    type V = BranchEntryModel;

    open spec fn view(&self) -> BranchEntryModel {
        BranchEntryModel {
            line: self.line,
            block: self.block,
            branch: self.branch,
            taken: self.taken,
        }
    }
}

impl View for FileSummary {
    type V = FileSummaryModel;

    open spec fn view(&self) -> FileSummaryModel {
        FileSummaryModel {
            test_name: self.test_name@,
            lines: lines_model(self.lines@),
            functions: fns_model(self.functions@),
            branches: brs_model(self.branches@),
        }
    }
}

impl View for FileEntry {
    type V = FileEntryModel;

    open spec fn view(&self) -> FileEntryModel {
        FileEntryModel { path: self.path@, summary: self.summary@ }
    }
}

impl View for Report {
    type V = Seq<FileEntryModel>;

    open spec fn view(&self) -> Seq<FileEntryModel> {
        files_model(self.files@)
    }
}

/// Order of branch keys: by line, then block, then branch id.
pub open spec fn branch_key_lt(a: BranchEntryModel, b: BranchEntryModel) -> bool {
    a.line < b.line || (a.line == b.line && a.block < b.block) || (a.line == b.line && a.block
        == b.block && a.branch < b.branch)
}

/// Whether two branch entries carry the same key.
pub open spec fn branch_key_eq(a: BranchEntryModel, b: BranchEntryModel) -> bool {
    a.line == b.line && a.block == b.block && a.branch == b.branch
}

/// The well-formed shape of a summary: each map sorted strictly by its key,
/// and no checksum stored as empty text.
pub open spec fn wf_summary(s: FileSummaryModel) -> bool {
    (forall|i: int, j: int|
        #![trigger s.lines[i], s.lines[j]]
        0 <= i < j < s.lines.len() ==> s.lines[i].line < s.lines[j].line) && (forall|i: int, j: int|
        0 <= i < j < s.functions.len() ==> lex_lt(s.functions[i].name, s.functions[j].name)) && (
    forall|i: int, j: int|
        0 <= i < j < s.branches.len() ==> branch_key_lt(s.branches[i], s.branches[j])) && (forall|
        i: int,
    |
        #![trigger s.lines[i]]
        0 <= i < s.lines.len() ==> (s.lines[i].checksum matches Some(c) ==> c.len() > 0))
}

/// The well-formed shape of a report: paths sorted strictly, every summary
/// well-formed.
pub open spec fn wf_report(files: Seq<FileEntryModel>) -> bool {
    (forall|i: int, j: int|
        #![trigger files[i], files[j]]
        0 <= i < j < files.len() ==> lex_lt(files[i].path, files[j].path)) && (forall|i: int|
        0 <= i < files.len() ==> wf_summary(#[trigger] files[i].summary))
}

/// The number of entries whose execution count is non-zero.
pub open spec fn spec_lines_hit(lines: Seq<LineEntryModel>) -> int
    decreases lines.len(),
{
    if lines.len() == 0 {
        0
    } else {
        spec_lines_hit(lines.drop_last()) + if lines.last().count > 0 {
            1int
        } else {
            0int
        }
    }
}

/// The number of functions whose execution count is non-zero.
pub open spec fn spec_functions_hit(fns: Seq<FunctionEntryModel>) -> int
    decreases fns.len(),
{
    if fns.len() == 0 {
        0
    } else {
        spec_functions_hit(fns.drop_last()) + if fns.last().count > 0 {
            1int
        } else {
            0int
        }
    }
}

/// The number of branches taken at least once.
pub open spec fn spec_branches_hit(brs: Seq<BranchEntryModel>) -> int
    decreases brs.len(),
{
    if brs.len() == 0 {
        0
    } else {
        spec_branches_hit(brs.drop_last()) + if brs.last().taken matches Some(t) && t > 0 {
            1int
        } else {
            0int
        }
    }
}

impl FileSummary {
    /// Lines found: the number of instrumented lines.
    pub fn lines_found(&self) -> (r: u64)
        requires
            self.lines@.len() <= u64::MAX,
        ensures
            r as int == self@.lines.len(),
    {
        self.lines.len() as u64
    }

    /// Lines hit: the number of lines with a non-zero execution count.
    pub fn lines_hit(&self) -> (r: u64)
        requires
            self.lines@.len() <= u64::MAX,
        ensures
            r as int == spec_lines_hit(self@.lines),
    {
        let n: usize = self.lines.len();
        let mut r: u64 = 0;
        let mut i: usize = 0;
        while i < n
            invariant
                n == self.lines@.len(),
                n <= u64::MAX,
                0 <= i <= n,
                r as int == spec_lines_hit(self@.lines.subrange(0, i as int)),
                r <= i,
            decreases n - i,
        {
            proof {
                let u = self@.lines.subrange(0, i + 1);
                assert(u.drop_last() =~= self@.lines.subrange(0, i as int));
                assert(u.last() == self@.lines[i as int]);
            }
            if self.lines[i].count > 0 {
                r += 1;
            }
            i += 1;
        }
        proof {
            assert(self@.lines.subrange(0, n as int) =~= self@.lines);
        }
        r
    }

    /// Functions found: the number of named functions.
    pub fn functions_found(&self) -> (r: u64)
        requires
            self.functions@.len() <= u64::MAX,
        ensures
            r as int == self@.functions.len(),
    {
        self.functions.len() as u64
    }

    /// Functions hit: the number of functions with a non-zero count.
    pub fn functions_hit(&self) -> (r: u64)
        requires
            self.functions@.len() <= u64::MAX,
        ensures
            r as int == spec_functions_hit(self@.functions),
    {
        let n: usize = self.functions.len();
        let mut r: u64 = 0;
        let mut i: usize = 0;
        while i < n
            invariant
                n == self.functions@.len(),
                n <= u64::MAX,
                0 <= i <= n,
                r as int == spec_functions_hit(self@.functions.subrange(0, i as int)),
                r <= i,
            decreases n - i,
        {
            proof {
                let u = self@.functions.subrange(0, i + 1);
                assert(u.drop_last() =~= self@.functions.subrange(0, i as int));
                assert(u.last() == self@.functions[i as int]);
            }
            if self.functions[i].count > 0 {
                r += 1;
            }
            i += 1;
        }
        proof {
            assert(self@.functions.subrange(0, n as int) =~= self@.functions);
        }
        r
    }

    /// Branches found: the number of recorded branches.
    pub fn branches_found(&self) -> (r: u64)
        requires
            self.branches@.len() <= u64::MAX,
        ensures
            r as int == self@.branches.len(),
    {
        self.branches.len() as u64
    }

    /// Branches hit: the number of branches taken at least once.
    pub fn branches_hit(&self) -> (r: u64)
        requires
            self.branches@.len() <= u64::MAX,
        ensures
            r as int == spec_branches_hit(self@.branches),
    {
        let n: usize = self.branches.len();
        let mut r: u64 = 0;
        let mut i: usize = 0;
        while i < n
            invariant
                n == self.branches@.len(),
                n <= u64::MAX,
                0 <= i <= n,
                r as int == spec_branches_hit(self@.branches.subrange(0, i as int)),
                r <= i,
            decreases n - i,
        {
            proof {
                let u = self@.branches.subrange(0, i + 1);
                assert(u.drop_last() =~= self@.branches.subrange(0, i as int));
                assert(u.last() == self@.branches[i as int]);
            }
            let keep = match self.branches[i].taken {
                Some(t) => t > 0,
                None => false,
            };
            if keep {
                r += 1;
            }
            i += 1;
        }
        proof {
            assert(self@.branches.subrange(0, n as int) =~= self@.branches);
        }
        r
    }
}

/// A semantic inconsistency between records: fatal to the accumulation or
/// merge that found it.
#[derive(Debug, Clone, PartialEq, Eq)]
pub enum MergeError {
    /// Two records carried different non-empty checksums for one line.
    ChecksumMismatch { path: String, line: u32, left: String, right: String },
    /// Two records carried different non-zero start lines for one function.
    FunctionLineMismatch { path: String, name: String, left: u32, right: u32 },
    /// An execution count or taken count left `u64`.
    CounterOverflow,
}

/// Spec-level value of a [`MergeError`].
pub enum MergeErrorModel {
    ChecksumMismatch { path: Seq<char>, line: u32, left: Seq<char>, right: Seq<char> },
    FunctionLineMismatch { path: Seq<char>, name: Seq<char>, left: u32, right: u32 },
    CounterOverflow,
}

impl View for MergeError {
    type V = MergeErrorModel;

    open spec fn view(&self) -> MergeErrorModel {
        match self {
            MergeError::ChecksumMismatch { path, line, left, right } => {
                MergeErrorModel::ChecksumMismatch {
                    path: path@,
                    line: *line,
                    left: left@,
                    right: right@,
                }
            },
            MergeError::FunctionLineMismatch { path, name, left, right } => {
                MergeErrorModel::FunctionLineMismatch {
                    path: path@,
                    name: name@,
                    left: *left,
                    right: *right,
                }
            },
            MergeError::CounterOverflow => MergeErrorModel::CounterOverflow,
        }
    }
}

/// An absent-or-empty checksum counts as absent.
pub open spec fn norm_checksum(c: Option<Seq<char>>) -> Option<Seq<char>> {
    match c {
        Some(x) => if x.len() > 0 {
            Some(x)
        } else {
            None
        },
        None => None,
    }
}

/// Reconcile two checksums for one line: both must be equal or one absent;
/// two different present checksums are the conflict carried in the error.
pub open spec fn reconcile_checksum(a: Option<Seq<char>>, b: Option<Seq<char>>) -> Result<
    Option<Seq<char>>,
    (Seq<char>, Seq<char>),
> {
    match (a, b) {
        (Option::None, x) => Ok(x),
        (Option::Some(x), Option::None) => Ok(Some(x)),
        (Option::Some(x), Option::Some(y)) => if x == y {
            Ok(Some(x))
        } else {
            Err((x, y))
        },
    }
}

/// Combine two taken counts: absent is the identity, two counts add, and a
/// sum past `u64::MAX` is an overflow.
pub open spec fn combine_taken(a: Option<u64>, b: Option<u64>) -> Result<Option<u64>, ()> {
    match (a, b) {
        (Option::None, x) => Ok(x),
        (Option::Some(x), Option::None) => Ok(Some(x)),
        (Option::Some(x), Option::Some(y)) => if x + y <= u64::MAX {
            Ok(Some((x + y) as u64))
        } else {
            Err(())
        },
    }
}

/// Add two execution counts, or report overflow.
pub open spec fn add_counts(a: u64, b: u64) -> Result<u64, ()> {
    if a + b <= u64::MAX {
        Ok((a + b) as u64)
    } else {
        Err(())
    }
}

/// The predicate "has path `path`" on file entries.
pub open spec fn path_eq_p(path: Seq<char>) -> spec_fn(FileEntryModel) -> bool {
    |f: FileEntryModel| f.path == path
}

/// The predicate "sorts before path `path`" on file entries.
pub open spec fn path_lt_p(path: Seq<char>) -> spec_fn(FileEntryModel) -> bool {
    |f: FileEntryModel| lex_lt(f.path, path)
}

/// The predicate "is line `line`" on line entries.
pub open spec fn line_eq_p(line: u32) -> spec_fn(LineEntryModel) -> bool {
    |e: LineEntryModel| e.line == line
}

/// The predicate "sorts before line `line`" on line entries.
pub open spec fn line_lt_p(line: u32) -> spec_fn(LineEntryModel) -> bool {
    |e: LineEntryModel| e.line < line
}

/// The predicate "is named `name`" on function entries.
pub open spec fn fn_eq_p(name: Seq<char>) -> spec_fn(FunctionEntryModel) -> bool {
    |e: FunctionEntryModel| e.name == name
}

/// The predicate "sorts before name `name`" on function entries.
pub open spec fn fn_lt_p(name: Seq<char>) -> spec_fn(FunctionEntryModel) -> bool {
    |e: FunctionEntryModel| lex_lt(e.name, name)
}

/// The predicate "has the key of `k`" on branch entries.
pub open spec fn br_eq_p(k: BranchEntryModel) -> spec_fn(BranchEntryModel) -> bool {
    |e: BranchEntryModel| branch_key_eq(e, k)
}

/// The predicate "sorts before the key of `k`" on branch entries.
pub open spec fn br_lt_p(k: BranchEntryModel) -> spec_fn(BranchEntryModel) -> bool {
    |e: BranchEntryModel| branch_key_lt(e, k)
}

/// A summary with no coverage yet.
pub open spec fn empty_summary(test_name: Seq<char>) -> FileSummaryModel {
    FileSummaryModel {
        test_name,
        lines: Seq::<LineEntryModel>::empty(),
        functions: Seq::<FunctionEntryModel>::empty(),
        branches: Seq::<BranchEntryModel>::empty(),
    }
}

/// The accumulation state: the report built so far, the path of the open
/// file scope if any, and a test name buffered before the next scope
/// (empty text meaning none).
pub struct AccModel {
    pub files: Seq<FileEntryModel>,
    pub current: Option<Seq<char>>,
    pub pending: Seq<char>,
}

/// The state before any record.
pub open spec fn acc_init() -> AccModel {
    AccModel { files: Seq::<FileEntryModel>::empty(), current: None, pending: Seq::<char>::empty() }
}

/// Apply one step of `f` to the summary of the file at `path` (which must
/// exist); helper shared by every record that mutates the open scope.
pub open spec fn update_file(
    files: Seq<FileEntryModel>,
    i: int,
    s: FileSummaryModel,
) -> Seq<FileEntryModel> {
    files.update(i, FileEntryModel { path: files[i].path, summary: s })
}

/// Open a scope for `path`: reuse the existing file entry (split reports
/// accumulate into it) or insert a fresh one at its sorted position; a
/// buffered test name is applied to the opened file and cleared.
pub open spec fn open_scope(st: AccModel, path: Seq<char>) -> AccModel {
    match seq_find(st.files, path_eq_p(path)) {
        Some(i) => {
            let files = if st.pending.len() > 0 {
                update_file(
                    st.files,
                    i,
                    FileSummaryModel {
                        test_name: st.pending,
                        lines: st.files[i].summary.lines,
                        functions: st.files[i].summary.functions,
                        branches: st.files[i].summary.branches,
                    },
                )
            } else {
                st.files
            };
            AccModel { files, current: Some(path), pending: Seq::<char>::empty() }
        },
        None => AccModel {
            files: st.files.insert(
                seq_span(st.files, path_lt_p(path)),
                FileEntryModel { path, summary: empty_summary(st.pending) },
            ),
            current: Some(path),
            pending: Seq::<char>::empty(),
        },
    }
}

/// Open the empty-path scope when a data record arrives with no `SF` seen.
pub open spec fn ensure_scope(st: AccModel) -> AccModel {
    match st.current {
        Some(_) => st,
        None => open_scope(st, Seq::<char>::empty()),
    }
}

/// Ingest a `DA` record into a summary.
pub open spec fn line_step(
    s: FileSummaryModel,
    path: Seq<char>,
    line: u32,
    count: u64,
    checksum: Option<Seq<char>>,
) -> Result<FileSummaryModel, MergeErrorModel> {
    let ck = norm_checksum(checksum);
    match seq_find(s.lines, line_eq_p(line)) {
        Some(i) => {
            let e = s.lines[i];
            match reconcile_checksum(e.checksum, ck) {
                Err(pair) => Err(
                    MergeErrorModel::ChecksumMismatch {
                        path,
                        line,
                        left: pair.0,
                        right: pair.1,
                    },
                ),
                Ok(c) => match add_counts(e.count, count) {
                    Err(_) => Err(MergeErrorModel::CounterOverflow),
                    Ok(total) => Ok(
                        FileSummaryModel {
                            test_name: s.test_name,
                            lines: s.lines.update(
                                i,
                                LineEntryModel { line, count: total, checksum: c },
                            ),
                            functions: s.functions,
                            branches: s.branches,
                        },
                    ),
                },
            }
        },
        None => Ok(
            FileSummaryModel {
                test_name: s.test_name,
                lines: s.lines.insert(
                    seq_span(s.lines, line_lt_p(line)),
                    LineEntryModel { line, count, checksum: ck },
                ),
                functions: s.functions,
                branches: s.branches,
            },
        ),
    }
}

/// Ingest an `FN` record: a known name takes the later start line, a new
/// name starts with count zero.
pub open spec fn fn_name_step(
    s: FileSummaryModel,
    name: Seq<char>,
    start_line: u32,
) -> FileSummaryModel {
    match seq_find(s.functions, fn_eq_p(name)) {
        Some(i) => FileSummaryModel {
            test_name: s.test_name,
            lines: s.lines,
            functions: s.functions.update(
                i,
                FunctionEntryModel { name, start_line, count: s.functions[i].count },
            ),
            branches: s.branches,
        },
        None => FileSummaryModel {
            test_name: s.test_name,
            lines: s.lines,
            functions: s.functions.insert(
                seq_span(s.functions, fn_lt_p(name)),
                FunctionEntryModel { name, start_line, count: 0 },
            ),
            branches: s.branches,
        },
    }
}

/// Ingest an `FNDA` record: a known name accumulates the count, a new name
/// gets a stub entry with start line zero.
pub open spec fn fn_data_step(s: FileSummaryModel, name: Seq<char>, count: u64) -> Result<
    FileSummaryModel,
    MergeErrorModel,
> {
    match seq_find(s.functions, fn_eq_p(name)) {
        Some(i) => {
            let e = s.functions[i];
            match add_counts(e.count, count) {
                Err(_) => Err(MergeErrorModel::CounterOverflow),
                Ok(total) => Ok(
                    FileSummaryModel {
                        test_name: s.test_name,
                        lines: s.lines,
                        functions: s.functions.update(
                            i,
                            FunctionEntryModel {
                                name,
                                start_line: e.start_line,
                                count: total,
                            },
                        ),
                        branches: s.branches,
                    },
                ),
            }
        },
        None => Ok(
            FileSummaryModel {
                test_name: s.test_name,
                lines: s.lines,
                functions: s.functions.insert(
                    seq_span(s.functions, fn_lt_p(name)),
                    FunctionEntryModel { name, start_line: 0, count },
                ),
                branches: s.branches,
            },
        ),
    }
}

/// Ingest a `BRDA` record: taken counts combine, absent being identity.
pub open spec fn branch_step(s: FileSummaryModel, b: BranchEntryModel) -> Result<
    FileSummaryModel,
    MergeErrorModel,
> {
    match seq_find(s.branches, br_eq_p(b)) {
        Some(i) => {
            let e = s.branches[i];
            match combine_taken(e.taken, b.taken) {
                Err(_) => Err(MergeErrorModel::CounterOverflow),
                Ok(t) => Ok(
                    FileSummaryModel {
                        test_name: s.test_name,
                        lines: s.lines,
                        functions: s.functions,
                        branches: s.branches.update(
                            i,
                            BranchEntryModel {
                                line: e.line,
                                block: e.block,
                                branch: e.branch,
                                taken: t,
                            },
                        ),
                    },
                ),
            }
        },
        None => Ok(
            FileSummaryModel {
                test_name: s.test_name,
                lines: s.lines,
                functions: s.functions,
                branches: s.branches.insert(seq_span(s.branches, br_lt_p(b)), b),
            },
        ),
    }
}

/// Apply `step` to the summary of the open scope of `st` (which must have
/// one, with a valid index `i` for it).
pub open spec fn scoped(st: AccModel, i: int, s: Result<FileSummaryModel, MergeErrorModel>) -> Result<
    AccModel,
    MergeErrorModel,
> {
    match s {
        Err(e) => Err(e),
        Ok(s2) => Ok(
            AccModel {
                files: update_file(st.files, i, s2),
                current: st.current,
                pending: st.pending,
            },
        ),
    }
}

/// One step of accumulation: what one record does to the state.
pub open spec fn acc_step(st: AccModel, r: RecordModel) -> Result<AccModel, MergeErrorModel> {
    match r {
        RecordModel::TestName { name } => Ok(
            match st.current {
                Some(path) => {
                    match seq_find(st.files, path_eq_p(path)) {
                        Some(i) => AccModel {
                            files: update_file(
                                st.files,
                                i,
                                FileSummaryModel {
                                    test_name: name,
                                    lines: st.files[i].summary.lines,
                                    functions: st.files[i].summary.functions,
                                    branches: st.files[i].summary.branches,
                                },
                            ),
                            current: st.current,
                            pending: st.pending,
                        },
                        None => st,
                    }
                },
                None => AccModel { files: st.files, current: None, pending: name },
            },
        ),
        RecordModel::SourceFile { path } => Ok(open_scope(st, path)),
        RecordModel::FunctionName { name, start_line } => {
            let st2 = ensure_scope(st);
            let path = st2.current.unwrap();
            match seq_find(st2.files, path_eq_p(path)) {
                Some(i) => Ok(
                    AccModel {
                        files: update_file(
                            st2.files,
                            i,
                            fn_name_step(st2.files[i].summary, name, start_line),
                        ),
                        current: st2.current,
                        pending: st2.pending,
                    },
                ),
                None => Ok(st2),
            }
        },
        RecordModel::FunctionData { name, count } => {
            let st2 = ensure_scope(st);
            let path = st2.current.unwrap();
            match seq_find(st2.files, path_eq_p(path)) {
                Some(i) => scoped(st2, i, fn_data_step(st2.files[i].summary, name, count)),
                None => Ok(st2),
            }
        },
        RecordModel::LineData { line, count, checksum } => {
            let st2 = ensure_scope(st);
            let path = st2.current.unwrap();
            match seq_find(st2.files, path_eq_p(path)) {
                Some(i) => scoped(
                    st2,
                    i,
                    line_step(st2.files[i].summary, path, line, count, checksum),
                ),
                None => Ok(st2),
            }
        },
        RecordModel::BranchData { line, block, branch, taken } => {
            let st2 = ensure_scope(st);
            let path = st2.current.unwrap();
            match seq_find(st2.files, path_eq_p(path)) {
                Some(i) => scoped(
                    st2,
                    i,
                    branch_step(
                        st2.files[i].summary,
                        BranchEntryModel { line, block, branch, taken },
                    ),
                ),
                None => Ok(st2),
            }
        },
        RecordModel::EndOfRecord => Ok(
            AccModel { files: st.files, current: None, pending: st.pending },
        ),
        _ => Ok(st),
    }
}

/// Fold [`acc_step`] over a record stream, stopping at the first error.
pub open spec fn acc_fold(st: AccModel, rs: Seq<RecordModel>) -> Result<AccModel, MergeErrorModel>
    decreases rs.len(),
{
    if rs.len() == 0 {
        Ok(st)
    } else {
        match acc_step(st, rs[0]) {
            Err(e) => Err(e),
            Ok(st2) => acc_fold(st2, rs.subrange(1, rs.len() as int)),
        }
    }
}

/// What accumulating a record stream yields: the files of the final state,
/// or the first semantic error.
pub open spec fn accumulate_model(rs: Seq<RecordModel>) -> Result<
    Seq<FileEntryModel>,
    MergeErrorModel,
> {
    match acc_fold(acc_init(), rs) {
        Ok(st) => Ok(st.files),
        Err(e) => Err(e),
    }
}

/// The spec-level values of a vector of records.
pub open spec fn records_model(rs: Seq<Record>) -> Seq<RecordModel> {
    Seq::new(rs.len(), |i: int| rs[i]@)
}

/// The spec-level value of an optional piece of text.
pub open spec fn opt_text_model(c: Option<String>) -> Option<Seq<char>> {
    match c {
        Some(x) => Some(x@),
        None => None,
    }
}

/// The spec-level values of a vector of file entries.
pub open spec fn files_model(files: Seq<FileEntry>) -> Seq<FileEntryModel> {
    Seq::new(files.len(), |i: int| files[i]@)
}

/// Ingesting a `DA` record preserves the well-formed shape of a summary.
pub proof fn lemma_line_step_wf(
    s: FileSummaryModel,
    path: Seq<char>,
    line: u32,
    count: u64,
    checksum: Option<Seq<char>>,
)
    requires
        wf_summary(s),
    ensures
        line_step(s, path, line, count, checksum) matches Ok(s2) ==> wf_summary(s2),
{
    lemma_seq_find(s.lines, line_eq_p(line));
    lemma_seq_span(s.lines, line_lt_p(line));
    match seq_find(s.lines, line_eq_p(line)) {
        Some(i) => {
            if let Ok(s2) = line_step(s, path, line, count, checksum) {
                assert(line_eq_p(line)(s.lines[i]));
                assert forall|a: int, b: int|
                    #![trigger s2.lines[a], s2.lines[b]]
                    0 <= a < b < s2.lines.len() implies s2.lines[a].line < s2.lines[b].line by {
                    assert(s.lines[a].line < s.lines[b].line);
                }
                assert forall|a: int|
                    #![trigger s2.lines[a]]
                    0 <= a < s2.lines.len() implies (s2.lines[a].checksum matches Some(c)
                    ==> c.len() > 0) by {
                    if a != i {
                        assert(s2.lines[a] == s.lines[a]);
                    }
                }
            }
        },
        None => {
            let pos = seq_span(s.lines, line_lt_p(line));
            assert forall|j: int| 0 <= j < pos implies s.lines[j].line < line by {
                assert(line_lt_p(line)(s.lines[j]));
            }
            assert forall|j: int| pos <= j < s.lines.len() implies line < s.lines[j].line by {
                assert(!line_eq_p(line)(s.lines[j]));
                assert(!line_lt_p(line)(s.lines[pos]));
                assert(!line_eq_p(line)(s.lines[pos]));
                if j > pos {
                    assert(s.lines[pos].line < s.lines[j].line);
                }
            }
            if let Ok(s2) = line_step(s, path, line, count, checksum) {
                assert forall|a: int, b: int|
                    #![trigger s2.lines[a], s2.lines[b]]
                    0 <= a < b < s2.lines.len() implies s2.lines[a].line < s2.lines[b].line by {
                    if a < pos {
                        assert(s2.lines[a] == s.lines[a]);
                    } else if a == pos {
                        assert(s2.lines[a].line == line);
                    } else {
                        assert(s2.lines[a] == s.lines[a - 1]);
                    }
                    if b < pos {
                        assert(s2.lines[b] == s.lines[b]);
                    } else if b == pos {
                        assert(s2.lines[b].line == line);
                    } else {
                        assert(s2.lines[b] == s.lines[b - 1]);
                    }
                }
                assert forall|a: int|
                    #![trigger s2.lines[a]]
                    0 <= a < s2.lines.len() implies (s2.lines[a].checksum matches Some(c)
                    ==> c.len() > 0) by {
                    if a < pos {
                        assert(s2.lines[a] == s.lines[a]);
                    } else if a > pos {
                        assert(s2.lines[a] == s.lines[a - 1]);
                    }
                }
            }
        },
    }
}

/// The two order facts around the insertion point of a fresh function name.
proof fn lemma_fn_insert_bounds(fns: Seq<FunctionEntryModel>, name: Seq<char>)
    requires
        forall|i: int, j: int| 0 <= i < j < fns.len() ==> lex_lt(fns[i].name, fns[j].name),
        seq_find(fns, fn_eq_p(name)) is None,
    ensures
        forall|j: int|
            0 <= j < seq_span(fns, fn_lt_p(name)) ==> lex_lt(#[trigger] fns[j].name, name),
        forall|j: int|
            seq_span(fns, fn_lt_p(name)) <= j < fns.len() ==> lex_lt(name, #[trigger] fns[j].name),
{
    lemma_seq_find(fns, fn_eq_p(name));
    lemma_seq_span(fns, fn_lt_p(name));
    let pos = seq_span(fns, fn_lt_p(name));
    assert forall|j: int| 0 <= j < pos implies lex_lt(#[trigger] fns[j].name, name) by {
        assert(fn_lt_p(name)(fns[j]));
    }
    assert forall|j: int| pos <= j < fns.len() implies lex_lt(name, #[trigger] fns[j].name) by {
        assert(!fn_eq_p(name)(fns[j]));
        assert(!fn_lt_p(name)(fns[pos]));
        assert(!fn_eq_p(name)(fns[pos]));
        lemma_lex_trichotomy(fns[pos].name, name);
        if j > pos {
            assert(lex_lt(fns[pos].name, fns[j].name));
            lemma_lex_transitive(name, fns[pos].name, fns[j].name);
        }
    }
}

/// Inserting or updating one function entry keeps the name order, when the
/// new sequence relates to the old one the way an insert or update does.
proof fn lemma_fn_seq_sorted_after(
    fns: Seq<FunctionEntryModel>,
    fns2: Seq<FunctionEntryModel>,
    name: Seq<char>,
    pos: int,
)
    requires
        forall|i: int, j: int| 0 <= i < j < fns.len() ==> lex_lt(fns[i].name, fns[j].name),
        0 <= pos <= fns.len(),
        fns2.len() == fns.len() + 1,
        forall|j: int| 0 <= j < pos ==> fns2[j] == fns[j],
        fns2[pos].name == name,
        forall|j: int| pos < j < fns2.len() ==> fns2[j] == fns[j - 1],
        forall|j: int| 0 <= j < pos ==> lex_lt(#[trigger] fns[j].name, name),
        forall|j: int| pos <= j < fns.len() ==> lex_lt(name, #[trigger] fns[j].name),
    ensures
        forall|i: int, j: int| 0 <= i < j < fns2.len() ==> lex_lt(fns2[i].name, fns2[j].name),
{
    assert forall|i: int, j: int| 0 <= i < j < fns2.len() implies lex_lt(
        fns2[i].name,
        fns2[j].name,
    ) by {
        if i < pos && j == pos {
            assert(fns2[i] == fns[i]);
            assert(lex_lt(fns[i].name, name));
        } else if i < pos && j > pos {
            assert(fns2[i] == fns[i] && fns2[j] == fns[j - 1]);
        } else if i == pos && j > pos {
            assert(fns2[j] == fns[j - 1]);
            assert(lex_lt(name, fns[j - 1].name));
        } else if i > pos {
            assert(fns2[i] == fns[i - 1] && fns2[j] == fns[j - 1]);
        } else {
            assert(fns2[i] == fns[i] && fns2[j] == fns[j]);
        }
    }
}

/// Ingesting an `FN` record preserves the well-formed shape of a summary.
pub proof fn lemma_fn_name_step_wf(s: FileSummaryModel, name: Seq<char>, start_line: u32)
    requires
        wf_summary(s),
    ensures
        wf_summary(fn_name_step(s, name, start_line)),
{
    lemma_seq_find(s.functions, fn_eq_p(name));
    lemma_seq_span(s.functions, fn_lt_p(name));
    let s2 = fn_name_step(s, name, start_line);
    match seq_find(s.functions, fn_eq_p(name)) {
        Some(i) => {
            assert(fn_eq_p(name)(s.functions[i]));
            assert forall|a: int, b: int| 0 <= a < b < s2.functions.len() implies lex_lt(
                s2.functions[a].name,
                s2.functions[b].name,
            ) by {
                assert(lex_lt(s.functions[a].name, s.functions[b].name));
                assert(s2.functions[a].name == s.functions[a].name);
                assert(s2.functions[b].name == s.functions[b].name);
            }
        },
        None => {
            let pos = seq_span(s.functions, fn_lt_p(name));
            lemma_fn_insert_bounds(s.functions, name);
            lemma_fn_seq_sorted_after(s.functions, s2.functions, name, pos);
        },
    }
}

/// Ingesting an `FNDA` record preserves the well-formed shape of a summary.
pub proof fn lemma_fn_data_step_wf(s: FileSummaryModel, name: Seq<char>, count: u64)
    requires
        wf_summary(s),
    ensures
        fn_data_step(s, name, count) matches Ok(s2) ==> wf_summary(s2),
{
    lemma_seq_find(s.functions, fn_eq_p(name));
    lemma_seq_span(s.functions, fn_lt_p(name));
    if let Ok(s2) = fn_data_step(s, name, count) {
        match seq_find(s.functions, fn_eq_p(name)) {
            Some(i) => {
                assert(fn_eq_p(name)(s.functions[i]));
                assert forall|a: int, b: int| 0 <= a < b < s2.functions.len() implies lex_lt(
                    s2.functions[a].name,
                    s2.functions[b].name,
                ) by {
                    assert(lex_lt(s.functions[a].name, s.functions[b].name));
                    assert(s2.functions[a].name == s.functions[a].name);
                    assert(s2.functions[b].name == s.functions[b].name);
                }
            },
            None => {
                let pos = seq_span(s.functions, fn_lt_p(name));
                lemma_fn_insert_bounds(s.functions, name);
                lemma_fn_seq_sorted_after(s.functions, s2.functions, name, pos);
            },
        }
    }
}

/// Ingesting a `BRDA` record preserves the well-formed shape of a summary.
pub proof fn lemma_branch_step_wf(s: FileSummaryModel, b: BranchEntryModel)
    requires
        wf_summary(s),
    ensures
        branch_step(s, b) matches Ok(s2) ==> wf_summary(s2),
{
    lemma_seq_find(s.branches, br_eq_p(b));
    lemma_seq_span(s.branches, br_lt_p(b));
    if let Ok(s2) = branch_step(s, b) {
        match seq_find(s.branches, br_eq_p(b)) {
            Some(i) => {
                assert(br_eq_p(b)(s.branches[i]));
                assert forall|a: int, c: int| 0 <= a < c < s2.branches.len() implies branch_key_lt(
                    s2.branches[a],
                    s2.branches[c],
                ) by {
                    assert(branch_key_lt(s.branches[a], s.branches[c]));
                }
            },
            None => {
                let pos = seq_span(s.branches, br_lt_p(b));
                assert forall|j: int| 0 <= j < pos implies branch_key_lt(s.branches[j], b) by {
                    assert(br_lt_p(b)(s.branches[j]));
                }
                assert forall|j: int| pos <= j < s.branches.len() implies branch_key_lt(
                    b,
                    s.branches[j],
                ) by {
                    assert(!br_eq_p(b)(s.branches[j]));
                    assert(!br_lt_p(b)(s.branches[pos]));
                    assert(!br_eq_p(b)(s.branches[pos]));
                    if j > pos {
                        assert(branch_key_lt(s.branches[pos], s.branches[j]));
                    }
                }
                assert forall|a: int, c: int| 0 <= a < c < s2.branches.len() implies branch_key_lt(
                    s2.branches[a],
                    s2.branches[c],
                ) by {
                    if a < pos {
                        assert(s2.branches[a] == s.branches[a]);
                    } else if a == pos {
                        assert(s2.branches[a] == b);
                    } else {
                        assert(s2.branches[a] == s.branches[a - 1]);
                    }
                    if c < pos {
                        assert(s2.branches[c] == s.branches[c]);
                    } else if c == pos {
                        assert(s2.branches[c] == b);
                    } else {
                        assert(s2.branches[c] == s.branches[c - 1]);
                    }
                }
            },
        }
    }
}

/// Opening a scope preserves the well-formed shape of the report.
pub proof fn lemma_open_scope_wf(st: AccModel, path: Seq<char>)
    requires
        wf_report(st.files),
    ensures
        wf_report(open_scope(st, path).files),
        open_scope(st, path).current == Some(path),
{
    lemma_seq_find(st.files, path_eq_p(path));
    lemma_seq_span(st.files, path_lt_p(path));
    let out = open_scope(st, path).files;
    match seq_find(st.files, path_eq_p(path)) {
        Some(i) => {
            assert(path_eq_p(path)(st.files[i]));
            assert forall|a: int, b: int| 0 <= a < b < out.len() implies lex_lt(
                out[a].path,
                out[b].path,
            ) by {
                assert(lex_lt(st.files[a].path, st.files[b].path));
                assert(out[a].path == st.files[a].path);
                assert(out[b].path == st.files[b].path);
            }
            assert forall|a: int| 0 <= a < out.len() implies wf_summary(
                #[trigger] out[a].summary,
            ) by {
                if a != i {
                    assert(out[a] == st.files[a]);
                } else {
                    assert(wf_summary(st.files[i].summary));
                }
            }
        },
        None => {
            let pos = seq_span(st.files, path_lt_p(path));
            assert forall|j: int| 0 <= j < pos implies lex_lt(
                #[trigger] st.files[j].path,
                path,
            ) by {
                assert(path_lt_p(path)(st.files[j]));
            }
            assert forall|j: int| pos <= j < st.files.len() implies lex_lt(
                path,
                #[trigger] st.files[j].path,
            ) by {
                assert(!path_eq_p(path)(st.files[j]));
                assert(!path_lt_p(path)(st.files[pos]));
                assert(!path_eq_p(path)(st.files[pos]));
                lemma_lex_trichotomy(st.files[pos].path, path);
                if j > pos {
                    assert(lex_lt(st.files[pos].path, st.files[j].path));
                    lemma_lex_transitive(path, st.files[pos].path, st.files[j].path);
                }
            }
            assert forall|a: int, b: int| 0 <= a < b < out.len() implies lex_lt(
                out[a].path,
                out[b].path,
            ) by {
                if a < pos {
                    assert(out[a] == st.files[a]);
                } else if a == pos {
                    assert(out[a].path == path);
                } else {
                    assert(out[a] == st.files[a - 1]);
                }
                if b < pos {
                    assert(out[b] == st.files[b]);
                } else if b == pos {
                    assert(out[b].path == path);
                } else {
                    assert(out[b] == st.files[b - 1]);
                }
            }
            assert forall|a: int| 0 <= a < out.len() implies wf_summary(
                #[trigger] out[a].summary,
            ) by {
                if a < pos {
                    assert(out[a] == st.files[a]);
                } else if a > pos {
                    assert(out[a] == st.files[a - 1]);
                }
            }
        },
    }
}

/// Find the entry for `line` in a sorted line vector: its index if
/// present, else the insertion position, as [`seq_find`] and [`seq_span`]
/// say.
fn find_line(lines: &Vec<LineEntry>, line: u32) -> (r: (bool, usize))
    requires
        forall|i: int, j: int|
            #![trigger lines_model(lines@)[i], lines_model(lines@)[j]]
            0 <= i < j < lines@.len() ==> lines_model(lines@)[i].line < lines_model(
                lines@,
            )[j].line,
    ensures
        ({
            let lm = lines_model(lines@);
            if r.0 {
                0 <= r.1 < lines@.len() && seq_find(lm, line_eq_p(line)) == Some(r.1 as int)
            } else {
                0 <= r.1 <= lines@.len() && seq_find(lm, line_eq_p(line)) is None && seq_span(
                    lm,
                    line_lt_p(line),
                ) == r.1 as int
            }
        }),
{
    let ghost lm = lines_model(lines@);
    proof {
        lemma_seq_find(lm, line_eq_p(line));
        lemma_seq_span(lm, line_lt_p(line));
    }
    let n: usize = lines.len();
    let mut i: usize = 0;
    while i < n && lines[i].line < line
        invariant
            n == lines@.len(),
            lm == lines_model(lines@),
            0 <= i <= n,
            forall|j: int| 0 <= j < i ==> #[trigger] lm[j].line < line,
        decreases n - i,
    {
        i += 1;
    }
    let found = i < n && lines[i].line == line;
    proof {
        if found {
            assert(line_eq_p(line)(lm[i as int]));
            match seq_find(lm, line_eq_p(line)) {
                Some(w) => {
                    if w < i {
                        assert(lm[w].line < line);
                    }
                },
                None => {
                    assert(false);
                },
            }
        } else {
            if let Some(w) = seq_find(lm, line_eq_p(line)) {
                if w < i {
                    assert(lm[w].line < line);
                } else {
                    assert(i < n);
                    assert(lm[i as int].line > line || lm[i as int].line == line);
                    if w > i {
                        assert(lm[i as int].line < lm[w].line);
                    }
                }
                assert(false);
            }
            let pos = seq_span(lm, line_lt_p(line));
            if pos < i {
                assert(line_lt_p(line)(lm[pos]));
                assert(lm[pos].line < line);
                assert(!line_lt_p(line)(lm[pos]));
            }
            if pos > i {
                assert(line_lt_p(line)(lm[i as int]));
            }
        }
    }
    (found, i)
}

/// Find the entry for `name` in a name-sorted function vector.
fn find_function(fns: &Vec<FunctionEntry>, name: &String) -> (r: (bool, usize))
    requires
        forall|i: int, j: int|
            #![trigger fns_model(fns@)[i], fns_model(fns@)[j]]
            0 <= i < j < fns@.len() ==> lex_lt(fns_model(fns@)[i].name, fns_model(fns@)[j].name),
    ensures
        ({
            let fm = fns_model(fns@);
            if r.0 {
                0 <= r.1 < fns@.len() && seq_find(fm, fn_eq_p(name@)) == Some(r.1 as int)
            } else {
                0 <= r.1 <= fns@.len() && seq_find(fm, fn_eq_p(name@)) is None && seq_span(
                    fm,
                    fn_lt_p(name@),
                ) == r.1 as int
            }
        }),
{
    let ghost fm = fns_model(fns@);
    proof {
        lemma_seq_find(fm, fn_eq_p(name@));
        lemma_seq_span(fm, fn_lt_p(name@));
    }
    let n: usize = fns.len();
    let mut i: usize = 0;
    while i < n && str_lt(fns[i].name.as_str(), name.as_str())
        invariant
            n == fns@.len(),
            fm == fns_model(fns@),
            0 <= i <= n,
            forall|j: int| 0 <= j < i ==> lex_lt(#[trigger] fm[j].name, name@),
        decreases n - i,
    {
        i += 1;
    }
    let found = i < n && fns[i].name.eq(name);
    proof {
        if i < n {
            lemma_lex_trichotomy(fm[i as int].name, name@);
        }
        if found {
            assert(fn_eq_p(name@)(fm[i as int]));
            match seq_find(fm, fn_eq_p(name@)) {
                Some(w) => {
                    if w < i {
                        assert(lex_lt(fm[w].name, name@));
                        lemma_lex_trichotomy(fm[w].name, name@);
                    }
                },
                None => {
                    assert(false);
                },
            }
        } else {
            if let Some(w) = seq_find(fm, fn_eq_p(name@)) {
                assert(fm[w].name == name@);
                if w < i {
                    assert(lex_lt(fm[w].name, name@));
                    lemma_lex_trichotomy(fm[w].name, name@);
                } else {
                    assert(i < n);
                    if w > i {
                        assert(lex_lt(fm[i as int].name, fm[w].name));
                    }
                }
                assert(false);
            }
            let pos = seq_span(fm, fn_lt_p(name@));
            if pos < i {
                assert(!fn_lt_p(name@)(fm[pos]));
                assert(lex_lt(fm[pos].name, name@));
            }
            if pos > i {
                assert(fn_lt_p(name@)(fm[i as int]));
            }
        }
    }
    (found, i)
}

/// Find the entry with the key of `key` in a key-sorted branch vector.
fn find_branch(brs: &Vec<BranchEntry>, line: u32, block: u32, branch: u32) -> (r: (bool, usize))
    requires
        forall|i: int, j: int|
            #![trigger brs_model(brs@)[i], brs_model(brs@)[j]]
            0 <= i < j < brs@.len() ==> branch_key_lt(brs_model(brs@)[i], brs_model(brs@)[j]),
    ensures
        ({
            let bm = brs_model(brs@);
            let key = BranchEntryModel { line, block, branch, taken: None };
            if r.0 {
                0 <= r.1 < brs@.len() && seq_find(bm, br_eq_p(key)) == Some(r.1 as int)
            } else {
                0 <= r.1 <= brs@.len() && seq_find(bm, br_eq_p(key)) is None && seq_span(
                    bm,
                    br_lt_p(key),
                ) == r.1 as int
            }
        }),
{
    let ghost key = BranchEntryModel { line, block, branch, taken: None };
    let ghost bm = brs_model(brs@);
    proof {
        lemma_seq_find(bm, br_eq_p(key));
        lemma_seq_span(bm, br_lt_p(key));
    }
    let n: usize = brs.len();
    let mut i: usize = 0;
    while i < n && (brs[i].line < line || (brs[i].line == line && brs[i].block < block) || (
    brs[i].line == line && brs[i].block == block && brs[i].branch < branch))
        invariant
            n == brs@.len(),
            bm == brs_model(brs@),
            key == (BranchEntryModel { line, block, branch, taken: None }),
            0 <= i <= n,
            forall|j: int| 0 <= j < i ==> branch_key_lt(#[trigger] bm[j], key),
        decreases n - i,
    {
        i += 1;
    }
    let found = i < n && brs[i].line == line && brs[i].block == block && brs[i].branch == branch;
    proof {
        if found {
            assert(br_eq_p(key)(bm[i as int]));
            match seq_find(bm, br_eq_p(key)) {
                Some(w) => {
                    if w < i {
                        assert(branch_key_lt(bm[w], key));
                    }
                },
                None => {
                    assert(false);
                },
            }
        } else {
            if let Some(w) = seq_find(bm, br_eq_p(key)) {
                assert(branch_key_eq(bm[w], key));
                if w < i {
                    assert(branch_key_lt(bm[w], key));
                } else {
                    assert(i < n);
                    if w > i {
                        assert(branch_key_lt(bm[i as int], bm[w]));
                    }
                }
                assert(false);
            }
            let pos = seq_span(bm, br_lt_p(key));
            if pos < i {
                assert(!br_lt_p(key)(bm[pos]));
                assert(branch_key_lt(bm[pos], key));
            }
            if pos > i {
                assert(br_lt_p(key)(bm[i as int]));
            }
        }
    }
    (found, i)
}

/// Find the entry for `path` in a path-sorted file vector.
fn find_file(files: &Vec<FileEntry>, path: &String) -> (r: (bool, usize))
    requires
        forall|i: int, j: int|
            #![trigger files_model(files@)[i], files_model(files@)[j]]
            0 <= i < j < files@.len() ==> lex_lt(
                files_model(files@)[i].path,
                files_model(files@)[j].path,
            ),
    ensures
        ({
            let fm = files_model(files@);
            if r.0 {
                0 <= r.1 < files@.len() && seq_find(fm, path_eq_p(path@)) == Some(r.1 as int)
            } else {
                0 <= r.1 <= files@.len() && seq_find(fm, path_eq_p(path@)) is None && seq_span(
                    fm,
                    path_lt_p(path@),
                ) == r.1 as int
            }
        }),
{
    let ghost fm = files_model(files@);
    proof {
        lemma_seq_find(fm, path_eq_p(path@));
        lemma_seq_span(fm, path_lt_p(path@));
    }
    let n: usize = files.len();
    let mut i: usize = 0;
    while i < n && str_lt(files[i].path.as_str(), path.as_str())
        invariant
            n == files@.len(),
            fm == files_model(files@),
            0 <= i <= n,
            forall|j: int| 0 <= j < i ==> lex_lt(#[trigger] fm[j].path, path@),
        decreases n - i,
    {
        i += 1;
    }
    let found = i < n && files[i].path.eq(path);
    proof {
        if i < n {
            lemma_lex_trichotomy(fm[i as int].path, path@);
        }
        if found {
            assert(path_eq_p(path@)(fm[i as int]));
            match seq_find(fm, path_eq_p(path@)) {
                Some(w) => {
                    if w < i {
                        assert(lex_lt(fm[w].path, path@));
                        lemma_lex_trichotomy(fm[w].path, path@);
                    }
                },
                None => {
                    assert(false);
                },
            }
        } else {
            if let Some(w) = seq_find(fm, path_eq_p(path@)) {
                assert(fm[w].path == path@);
                if w < i {
                    assert(lex_lt(fm[w].path, path@));
                    lemma_lex_trichotomy(fm[w].path, path@);
                } else {
                    assert(i < n);
                    if w > i {
                        assert(lex_lt(fm[i as int].path, fm[w].path));
                    }
                }
                assert(false);
            }
            let pos = seq_span(fm, path_lt_p(path@));
            if pos < i {
                assert(!path_lt_p(path@)(fm[pos]));
                assert(lex_lt(fm[pos].path, path@));
            }
            if pos > i {
                assert(path_lt_p(path@)(fm[i as int]));
            }
        }
    }
    (found, i)
}

/// Ingest a `DA` record into a summary, as [`line_step`] says.
fn apply_line(
    s: &mut FileSummary,
    path: &String,
    line: u32,
    count: u64,
    checksum: Option<String>,
) -> (r: Result<(), MergeError>)
    requires
        wf_summary(old(s)@),
    ensures
        match r {
            Ok(_) => line_step(old(s)@, path@, line, count, opt_text_model(checksum)) == Ok::<
                FileSummaryModel,
                MergeErrorModel,
            >(final(s)@),
            Err(e) => line_step(old(s)@, path@, line, count, opt_text_model(checksum)) == Err::<
                FileSummaryModel,
                MergeErrorModel,
            >(e@),
        },
{
    let ghost lm = old(s)@.lines;
    let ck: Option<String> = match checksum {
        Some(c) => if c.as_str().is_empty() {
            None
        } else {
            Some(c)
        },
        None => None,
    };
    proof {
        assert(norm_checksum(opt_text_model(checksum)) == opt_text_model(ck));
    }
    let (found, idx) = find_line(&s.lines, line);
    if found {
        let e = s.lines.remove(idx);
        let merged_ck: Option<String> = match (e.checksum, ck) {
            (Option::None, x) => x,
            (Option::Some(x), Option::None) => Some(x),
            (Option::Some(x), Option::Some(y)) => {
                if x.eq(&y) {
                    Some(x)
                } else {
                    return Err(
                        MergeError::ChecksumMismatch {
                            path: path.clone(),
                            line,
                            left: x,
                            right: y,
                        },
                    );
                }
            },
        };
        if u64::MAX - count < e.count {
            return Err(MergeError::CounterOverflow);
        }
        let total: u64 = e.count + count;
        s.lines.insert(idx, LineEntry { line, count: total, checksum: merged_ck });
        proof {
            assert(s@.lines =~= lm.update(
                idx as int,
                LineEntryModel {
                    line,
                    count: total,
                    checksum: match reconcile_checksum(
                        lm[idx as int].checksum,
                        opt_text_model(ck),
                    ) {
                        Ok(c) => c,
                        Err(_) => None,
                    },
                },
            ));
            assert(s@ =~= (match line_step(old(s)@, path@, line, count, opt_text_model(checksum)) {
                Ok(s2) => s2,
                Err(_) => s@,
            }));
        }
        Ok(())
    } else {
        s.lines.insert(idx, LineEntry { line, count, checksum: ck });
        proof {
            assert(s@.lines =~= lm.insert(
                idx as int,
                LineEntryModel { line, count, checksum: opt_text_model(ck) },
            ));
            assert(s@ =~= (match line_step(old(s)@, path@, line, count, opt_text_model(checksum)) {
                Ok(s2) => s2,
                Err(_) => s@,
            }));
        }
        Ok(())
    }
}

/// Ingest an `FN` record into a summary, as [`fn_name_step`] says.
fn apply_fn_name(s: &mut FileSummary, name: &String, start_line: u32)
    requires
        wf_summary(old(s)@),
    ensures
        final(s)@ == fn_name_step(old(s)@, name@, start_line),
{
    let ghost fm = old(s)@.functions;
    let (found, idx) = find_function(&s.functions, name);
    if found {
        let e = s.functions.remove(idx);
        s.functions.insert(
            idx,
            FunctionEntry { name: name.clone(), start_line, count: e.count },
        );
        proof {
            assert(s@.functions =~= fm.update(
                idx as int,
                FunctionEntryModel { name: name@, start_line, count: fm[idx as int].count },
            ));
            assert(s@ =~= fn_name_step(old(s)@, name@, start_line));
        }
    } else {
        s.functions.insert(idx, FunctionEntry { name: name.clone(), start_line, count: 0 });
        proof {
            assert(s@.functions =~= fm.insert(
                idx as int,
                FunctionEntryModel { name: name@, start_line, count: 0 },
            ));
            assert(s@ =~= fn_name_step(old(s)@, name@, start_line));
        }
    }
}

/// Ingest an `FNDA` record into a summary, as [`fn_data_step`] says.
fn apply_fn_data(s: &mut FileSummary, name: &String, count: u64) -> (r: Result<(), MergeError>)
    requires
        wf_summary(old(s)@),
    ensures
        match r {
            Ok(_) => fn_data_step(old(s)@, name@, count) == Ok::<
                FileSummaryModel,
                MergeErrorModel,
            >(final(s)@),
            Err(e) => fn_data_step(old(s)@, name@, count) == Err::<
                FileSummaryModel,
                MergeErrorModel,
            >(e@),
        },
{
    let ghost fm = old(s)@.functions;
    let (found, idx) = find_function(&s.functions, name);
    if found {
        let e = s.functions.remove(idx);
        if u64::MAX - count < e.count {
            return Err(MergeError::CounterOverflow);
        }
        let total: u64 = e.count + count;
        s.functions.insert(
            idx,
            FunctionEntry { name: name.clone(), start_line: e.start_line, count: total },
        );
        proof {
            assert(s@.functions =~= fm.update(
                idx as int,
                FunctionEntryModel {
                    name: name@,
                    start_line: fm[idx as int].start_line,
                    count: total,
                },
            ));
            assert(s@ =~= (match fn_data_step(old(s)@, name@, count) {
                Ok(s2) => s2,
                Err(_) => s@,
            }));
        }
        Ok(())
    } else {
        s.functions.insert(idx, FunctionEntry { name: name.clone(), start_line: 0, count });
        proof {
            assert(s@.functions =~= fm.insert(
                idx as int,
                FunctionEntryModel { name: name@, start_line: 0, count },
            ));
            assert(s@ =~= (match fn_data_step(old(s)@, name@, count) {
                Ok(s2) => s2,
                Err(_) => s@,
            }));
        }
        Ok(())
    }
}

/// Ingest a `BRDA` record into a summary, as [`branch_step`] says.
fn apply_branch(
    s: &mut FileSummary,
    line: u32,
    block: u32,
    branch: u32,
    taken: Option<u64>,
) -> (r: Result<(), MergeError>)
    requires
        wf_summary(old(s)@),
    ensures
        match r {
            Ok(_) => branch_step(
                old(s)@,
                (BranchEntryModel { line, block, branch, taken }),
            ) == Ok::<FileSummaryModel, MergeErrorModel>(final(s)@),
            Err(e) => branch_step(
                old(s)@,
                (BranchEntryModel { line, block, branch, taken }),
            ) == Err::<FileSummaryModel, MergeErrorModel>(e@),
        },
{
    let ghost bmod = BranchEntryModel { line, block, branch, taken };
    let ghost bm = old(s)@.branches;
    let (found, idx) = find_branch(&s.branches, line, block, branch);
    proof {
        assert(br_eq_p(bmod) == br_eq_p(BranchEntryModel { line, block, branch, taken: None }));
        assert(br_lt_p(bmod) == br_lt_p(BranchEntryModel { line, block, branch, taken: None }));
    }
    if found {
        let e = s.branches.remove(idx);
        let combined: Option<u64> = match (e.taken, taken) {
            (Option::None, x) => x,
            (Option::Some(x), Option::None) => Some(x),
            (Option::Some(x), Option::Some(y)) => {
                if u64::MAX - y < x {
                    return Err(MergeError::CounterOverflow);
                }
                Some(x + y)
            },
        };
        s.branches.insert(idx, BranchEntry { line, block, branch, taken: combined });
        proof {
            lemma_seq_find(bm, br_eq_p(BranchEntryModel { line, block, branch, taken: None }));
            assert(br_eq_p(BranchEntryModel { line, block, branch, taken: None })(
                bm[idx as int],
            ));
            assert(bm[idx as int].line == line && bm[idx as int].block == block
                && bm[idx as int].branch == branch);
            assert(s@.branches =~= bm.update(
                idx as int,
                BranchEntryModel {
                    line,
                    block,
                    branch,
                    taken: match combine_taken(bm[idx as int].taken, taken) {
                        Ok(t) => t,
                        Err(_) => None,
                    },
                },
            ));
            assert(s@ =~= (match branch_step(old(s)@, bmod) {
                Ok(s2) => s2,
                Err(_) => s@,
            }));
        }
        Ok(())
    } else {
        s.branches.insert(idx, BranchEntry { line, block, branch, taken });
        proof {
            assert(s@.branches =~= bm.insert(idx as int, bmod));
            assert(s@ =~= (match branch_step(old(s)@, bmod) {
                Ok(s2) => s2,
                Err(_) => s@,
            }));
        }
        Ok(())
    }
}

/// Open a scope for `path` in the file vector, as [`open_scope`] says:
/// reuse or insert the file entry, apply and clear the buffered test name.
fn do_open_scope(files: &mut Vec<FileEntry>, pending: &mut String, path: &String)
    requires
        wf_report(files_model(old(files)@)),
    ensures
        ({
            let st2 = open_scope(
                (AccModel {
                    files: files_model(old(files)@),
                    current: None,
                    pending: old(pending)@,
                }),
                path@,
            );
            files_model(final(files)@) == st2.files && final(pending)@ == Seq::<char>::empty()
        }),
{
    let ghost fm = files_model(files@);
    let (found, idx) = find_file(files, path);
    if found {
        if !pending.as_str().is_empty() {
            let mut fe = files.remove(idx);
            fe.summary.test_name = pending.clone();
            files.insert(idx, fe);
            proof {
                assert(files_model(files@) =~= update_file(
                    fm,
                    idx as int,
                    FileSummaryModel {
                        test_name: old(pending)@,
                        lines: fm[idx as int].summary.lines,
                        functions: fm[idx as int].summary.functions,
                        branches: fm[idx as int].summary.branches,
                    },
                ));
            }
        } else {
            proof {
                assert(files_model(files@) =~= fm);
            }
        }
        *pending = String::new();
    } else {
        let fe = FileEntry {
            path: path.clone(),
            summary: FileSummary {
                test_name: pending.clone(),
                lines: Vec::new(),
                functions: Vec::new(),
                branches: Vec::new(),
            },
        };
        files.insert(idx, fe);
        *pending = String::new();
        proof {
            assert(lines_model(Seq::<LineEntry>::empty()) =~= Seq::<LineEntryModel>::empty());
            assert(fns_model(Seq::<FunctionEntry>::empty())
                =~= Seq::<FunctionEntryModel>::empty());
            assert(brs_model(Seq::<BranchEntry>::empty()) =~= Seq::<BranchEntryModel>::empty());
            assert(files_model(files@) =~= fm.insert(
                idx as int,
                FileEntryModel { path: path@, summary: empty_summary(old(pending)@) },
            ));
        }
    }
}

impl Report {
    /// The report with no files.
    pub fn new() -> (r: Report)
        ensures
            r@ == Seq::<FileEntryModel>::empty(),
            wf_report(r@),
    {
        let r = Report { files: Vec::new() };
        proof {
            assert(files_model(r.files@) =~= Seq::<FileEntryModel>::empty());
        }
        r
    }

    /// Accumulate a record stream into a report, exactly as the state
    /// machine of [`acc_step`] folded by [`accumulate_model`] says: records
    /// between an `SF` and `end_of_record` mutate that file's summary,
    /// found/hit counter records are ignored, and the first checksum
    /// conflict or counter overflow is the error.
    #[verifier::rlimit(100)]
    pub fn from_records(records: &Vec<Record>) -> (r: Result<Report, MergeError>)
        ensures
            match r {
                Ok(rep) => accumulate_model(records_model(records@)) == Ok::<
                    Seq<FileEntryModel>,
                    MergeErrorModel,
                >(rep@) && wf_report(rep@),
                Err(e) => accumulate_model(records_model(records@)) == Err::<
                    Seq<FileEntryModel>,
                    MergeErrorModel,
                >(e@),
            },
    {
        let ghost rs = records_model(records@);
        let n: usize = records.len();
        let mut files: Vec<FileEntry> = Vec::new();
        let mut cur: Option<String> = None;
        let mut pending: String = String::new();
        let mut i: usize = 0;
        proof {
            assert(files_model(files@) =~= Seq::<FileEntryModel>::empty());
            assert(rs.skip(0) =~= rs);
            assert(acc_init() == (AccModel {
                files: files_model(files@),
                current: opt_text_model(cur),
                pending: pending@,
            }));
        }
        while i < n
            invariant
                n == records@.len(),
                rs == records_model(records@),
                0 <= i <= n,
                wf_report(files_model(files@)),
                acc_fold(acc_init(), rs) == acc_fold(
                    (AccModel {
                        files: files_model(files@),
                        current: opt_text_model(cur),
                        pending: pending@,
                    }),
                    rs.skip(i as int),
                ),
            decreases n - i,
        {
            let ghost st0 = AccModel {
                files: files_model(files@),
                current: opt_text_model(cur),
                pending: pending@,
            };
            proof {
                assert(rs.skip(i as int)[0] == rs[i as int]);
                assert(rs.skip(i as int).subrange(1, rs.skip(i as int).len() as int) =~= rs.skip(
                    i + 1,
                ));
                assert(rs[i as int] == records@[i as int]@);
                lemma_acc_step_wf(st0, rs[i as int]);
            }
            let rec = &records[i];
            match rec {
                Record::TestName { name } => {
                    match &cur {
                        Some(p) => {
                            let (found, idx) = find_file(&files, p);
                            if found {
                                let mut fe = files.remove(idx);
                                fe.summary.test_name = name.clone();
                                files.insert(idx, fe);
                                proof {
                                    assert(files_model(files@) =~= update_file(
                                        st0.files,
                                        idx as int,
                                        FileSummaryModel {
                                            test_name: name@,
                                            lines: st0.files[idx as int].summary.lines,
                                            functions: st0.files[idx as int].summary.functions,
                                            branches: st0.files[idx as int].summary.branches,
                                        },
                                    ));
                                }
                            }
                        },
                        None => {
                            pending = name.clone();
                        },
                    }
                },
                Record::SourceFile { path } => {
                    do_open_scope(&mut files, &mut pending, path);
                    cur = Some(path.clone());
                },
                Record::FunctionName { name, start_line } => {
                    if cur.is_none() {
                        let p0 = String::new();
                        do_open_scope(&mut files, &mut pending, &p0);
                        proof {
                            lemma_open_scope_wf(
                                (AccModel {
                                    files: st0.files,
                                    current: None,
                                    pending: st0.pending,
                                }),
                                p0@,
                            );
                            assert(wf_report(files_model(files@)));
                        }
                        cur = Some(p0);
                    }
                    match &cur {
                        Some(p) => {
                            let (found, idx) = find_file(&files, p);
                            let ghost fm1 = files_model(files@);
                            if found {
                                let mut fe = files.remove(idx);
                                apply_fn_name(&mut fe.summary, name, *start_line);
                                files.insert(idx, fe);
                                proof {
                                    assert(files_model(files@) =~= update_file(
                                        fm1,
                                        idx as int,
                                        fn_name_step(
                                            fm1[idx as int].summary,
                                            name@,
                                            *start_line,
                                        ),
                                    ));
                                }
                            }
                        },
                        None => {},
                    }
                },
                Record::FunctionData { name, count } => {
                    if cur.is_none() {
                        let p0 = String::new();
                        do_open_scope(&mut files, &mut pending, &p0);
                        proof {
                            lemma_open_scope_wf(
                                (AccModel {
                                    files: st0.files,
                                    current: None,
                                    pending: st0.pending,
                                }),
                                p0@,
                            );
                            assert(wf_report(files_model(files@)));
                        }
                        cur = Some(p0);
                    }
                    match &cur {
                        Some(p) => {
                            let (found, idx) = find_file(&files, p);
                            let ghost fm1 = files_model(files@);
                            if found {
                                let mut fe = files.remove(idx);
                                match apply_fn_data(&mut fe.summary, name, *count) {
                                    Ok(_) => {
                                        files.insert(idx, fe);
                                        proof {
                                            assert(fn_data_step(
                                                fm1[idx as int].summary,
                                                name@,
                                                *count,
                                            ) == Ok::<FileSummaryModel, MergeErrorModel>(
                                                fe@.summary,
                                            ));
                                            assert(files_model(files@) =~= update_file(
                                                fm1,
                                                idx as int,
                                                fe@.summary,
                                            ));
                                        }
                                    },
                                    Err(e) => {
                                        proof {
                                            assert(acc_step(st0, rs[i as int]) == Err::<
                                                AccModel,
                                                MergeErrorModel,
                                            >(e@));
                                        }
                                        return Err(e);
                                    },
                                }
                            }
                        },
                        None => {},
                    }
                },
                Record::LineData { line, count, checksum } => {
                    if cur.is_none() {
                        let p0 = String::new();
                        do_open_scope(&mut files, &mut pending, &p0);
                        proof {
                            lemma_open_scope_wf(
                                (AccModel {
                                    files: st0.files,
                                    current: None,
                                    pending: st0.pending,
                                }),
                                p0@,
                            );
                            assert(wf_report(files_model(files@)));
                        }
                        cur = Some(p0);
                    }
                    match &cur {
                        Some(p) => {
                            let (found, idx) = find_file(&files, p);
                            let ghost fm1 = files_model(files@);
                            if found {
                                let ck: Option<String> = match checksum {
                                    Some(c) => Some(c.clone()),
                                    None => None,
                                };
                                proof {
                                    assert(opt_text_model(ck) == (match rec@ {
                                        RecordModel::LineData { checksum: c, .. } => c,
                                        _ => None,
                                    }));
                                }
                                let mut fe = files.remove(idx);
                                match apply_line(&mut fe.summary, p, *line, *count, ck) {
                                    Ok(_) => {
                                        files.insert(idx, fe);
                                        proof {
                                            assert(files_model(files@) =~= update_file(
                                                fm1,
                                                idx as int,
                                                fe@.summary,
                                            ));
                                        }
                                    },
                                    Err(e) => {
                                        proof {
                                            assert(acc_step(st0, rs[i as int]) == Err::<
                                                AccModel,
                                                MergeErrorModel,
                                            >(e@));
                                        }
                                        return Err(e);
                                    },
                                }
                            }
                        },
                        None => {},
                    }
                },
                Record::BranchData { line, block, branch, taken } => {
                    if cur.is_none() {
                        let p0 = String::new();
                        do_open_scope(&mut files, &mut pending, &p0);
                        proof {
                            lemma_open_scope_wf(
                                (AccModel {
                                    files: st0.files,
                                    current: None,
                                    pending: st0.pending,
                                }),
                                p0@,
                            );
                            assert(wf_report(files_model(files@)));
                        }
                        cur = Some(p0);
                    }
                    match &cur {
                        Some(p) => {
                            let (found, idx) = find_file(&files, p);
                            let ghost fm1 = files_model(files@);
                            if found {
                                let mut fe = files.remove(idx);
                                match apply_branch(
                                    &mut fe.summary,
                                    *line,
                                    *block,
                                    *branch,
                                    *taken,
                                ) {
                                    Ok(_) => {
                                        files.insert(idx, fe);
                                        proof {
                                            assert(files_model(files@) =~= update_file(
                                                fm1,
                                                idx as int,
                                                fe@.summary,
                                            ));
                                        }
                                    },
                                    Err(e) => {
                                        proof {
                                            assert(acc_step(st0, rs[i as int]) == Err::<
                                                AccModel,
                                                MergeErrorModel,
                                            >(e@));
                                        }
                                        return Err(e);
                                    },
                                }
                            }
                        },
                        None => {},
                    }
                },
                Record::EndOfRecord => {
                    cur = None;
                },
                _ => {},
            }
            proof {
                let st1 = AccModel {
                    files: files_model(files@),
                    current: opt_text_model(cur),
                    pending: pending@,
                };
                assert(acc_step(st0, rs[i as int]) == Ok::<AccModel, MergeErrorModel>(st1));
                assert(acc_fold(acc_init(), rs) == acc_fold(st1, rs.skip(i + 1)));
            }
            i += 1;
        }
        proof {
            assert(rs.skip(n as int) =~= Seq::<RecordModel>::empty());
        }
        let rep = Report { files };
        Ok(rep)
    }
}

/// Merge two sorted line maps: union of lines, counts added, checksums
/// reconciled; the first conflict or overflow is the error.
pub open spec fn merge_lines(
    a: Seq<LineEntryModel>,
    b: Seq<LineEntryModel>,
    path: Seq<char>,
) -> Result<Seq<LineEntryModel>, MergeErrorModel>
    decreases a.len() + b.len(),
{
    if a.len() == 0 {
        Ok(b)
    } else if b.len() == 0 {
        Ok(a)
    } else if a[0].line < b[0].line {
        match merge_lines(a.subrange(1, a.len() as int), b, path) {
            Err(e) => Err(e),
            Ok(t) => Ok(seq![a[0]] + t),
        }
    } else if b[0].line < a[0].line {
        match merge_lines(a, b.subrange(1, b.len() as int), path) {
            Err(e) => Err(e),
            Ok(t) => Ok(seq![b[0]] + t),
        }
    } else {
        match reconcile_checksum(a[0].checksum, b[0].checksum) {
            Err(pair) => Err(
                MergeErrorModel::ChecksumMismatch {
                    path,
                    line: a[0].line,
                    left: pair.0,
                    right: pair.1,
                },
            ),
            Ok(c) => match add_counts(a[0].count, b[0].count) {
                Err(_) => Err(MergeErrorModel::CounterOverflow),
                Ok(total) => match merge_lines(
                    a.subrange(1, a.len() as int),
                    b.subrange(1, b.len() as int),
                    path,
                ) {
                    Err(e) => Err(e),
                    Ok(t) => Ok(
                        seq![LineEntryModel { line: a[0].line, count: total, checksum: c }] + t,
                    ),
                },
            },
        }
    }
}

/// Merge two name-sorted function maps: counts added, and the start line
/// resolved in favour of the non-zero side; two different non-zero start
/// lines are the error.
pub open spec fn merge_functions(
    a: Seq<FunctionEntryModel>,
    b: Seq<FunctionEntryModel>,
    path: Seq<char>,
) -> Result<Seq<FunctionEntryModel>, MergeErrorModel>
    decreases a.len() + b.len(),
{
    if a.len() == 0 {
        Ok(b)
    } else if b.len() == 0 {
        Ok(a)
    } else if lex_lt(a[0].name, b[0].name) {
        match merge_functions(a.subrange(1, a.len() as int), b, path) {
            Err(e) => Err(e),
            Ok(t) => Ok(seq![a[0]] + t),
        }
    } else if lex_lt(b[0].name, a[0].name) {
        match merge_functions(a, b.subrange(1, b.len() as int), path) {
            Err(e) => Err(e),
            Ok(t) => Ok(seq![b[0]] + t),
        }
    } else {
        if a[0].start_line != b[0].start_line && a[0].start_line != 0 && b[0].start_line != 0 {
            Err(
                MergeErrorModel::FunctionLineMismatch {
                    path,
                    name: a[0].name,
                    left: a[0].start_line,
                    right: b[0].start_line,
                },
            )
        } else {
            match add_counts(a[0].count, b[0].count) {
                Err(_) => Err(MergeErrorModel::CounterOverflow),
                Ok(total) => match merge_functions(
                    a.subrange(1, a.len() as int),
                    b.subrange(1, b.len() as int),
                    path,
                ) {
                    Err(e) => Err(e),
                    Ok(t) => Ok(
                        seq![
                            FunctionEntryModel {
                                name: a[0].name,
                                start_line: if a[0].start_line != 0 {
                                    a[0].start_line
                                } else {
                                    b[0].start_line
                                },
                                count: total,
                            }
                        ] + t,
                    ),
                },
            }
        }
    }
}

/// Merge two key-sorted branch maps: taken counts combined, absent being
/// the identity.
pub open spec fn merge_branches(a: Seq<BranchEntryModel>, b: Seq<BranchEntryModel>) -> Result<
    Seq<BranchEntryModel>,
    MergeErrorModel,
>
    decreases a.len() + b.len(),
{
    if a.len() == 0 {
        Ok(b)
    } else if b.len() == 0 {
        Ok(a)
    } else if branch_key_lt(a[0], b[0]) {
        match merge_branches(a.subrange(1, a.len() as int), b) {
            Err(e) => Err(e),
            Ok(t) => Ok(seq![a[0]] + t),
        }
    } else if branch_key_lt(b[0], a[0]) {
        match merge_branches(a, b.subrange(1, b.len() as int)) {
            Err(e) => Err(e),
            Ok(t) => Ok(seq![b[0]] + t),
        }
    } else {
        match combine_taken(a[0].taken, b[0].taken) {
            Err(_) => Err(MergeErrorModel::CounterOverflow),
            Ok(t0) => match merge_branches(
                a.subrange(1, a.len() as int),
                b.subrange(1, b.len() as int),
            ) {
                Err(e) => Err(e),
                Ok(t) => Ok(
                    seq![
                        BranchEntryModel {
                            line: a[0].line,
                            block: a[0].block,
                            branch: a[0].branch,
                            taken: t0,
                        }
                    ] + t,
                ),
            },
        }
    }
}

/// Merge two file summaries: each map merged; the left test name wins
/// whenever it is non-empty.
pub open spec fn merge_summary(
    a: FileSummaryModel,
    b: FileSummaryModel,
    path: Seq<char>,
) -> Result<FileSummaryModel, MergeErrorModel> {
    match merge_lines(a.lines, b.lines, path) {
        Err(e) => Err(e),
        Ok(l) => match merge_functions(a.functions, b.functions, path) {
            Err(e) => Err(e),
            Ok(f) => match merge_branches(a.branches, b.branches) {
                Err(e) => Err(e),
                Ok(br) => Ok(
                    FileSummaryModel {
                        test_name: if a.test_name.len() > 0 {
                            a.test_name
                        } else {
                            b.test_name
                        },
                        lines: l,
                        functions: f,
                        branches: br,
                    },
                ),
            },
        },
    }
}

/// Merge two path-sorted reports: a path on one side alone keeps its
/// summary, a path on both has its summaries merged.
pub open spec fn merge_files_model(a: Seq<FileEntryModel>, b: Seq<FileEntryModel>) -> Result<
    Seq<FileEntryModel>,
    MergeErrorModel,
>
    decreases a.len() + b.len(),
{
    if a.len() == 0 {
        Ok(b)
    } else if b.len() == 0 {
        Ok(a)
    } else if lex_lt(a[0].path, b[0].path) {
        match merge_files_model(a.subrange(1, a.len() as int), b) {
            Err(e) => Err(e),
            Ok(t) => Ok(seq![a[0]] + t),
        }
    } else if lex_lt(b[0].path, a[0].path) {
        match merge_files_model(a, b.subrange(1, b.len() as int)) {
            Err(e) => Err(e),
            Ok(t) => Ok(seq![b[0]] + t),
        }
    } else {
        match merge_summary(a[0].summary, b[0].summary, a[0].path) {
            Err(e) => Err(e),
            Ok(s) => match merge_files_model(
                a.subrange(1, a.len() as int),
                b.subrange(1, b.len() as int),
            ) {
                Err(e) => Err(e),
                Ok(t) => Ok(seq![FileEntryModel { path: a[0].path, summary: s }] + t),
            },
        }
    }
}

/// Copy one line entry.
fn clone_line_entry(e: &LineEntry) -> (r: LineEntry)
    ensures
        r@ == e@,
{
    LineEntry {
        line: e.line,
        count: e.count,
        checksum: match &e.checksum {
            Some(c) => Some(c.clone()),
            None => None,
        },
    }
}

/// Copy the tail of a line vector, from `from` on.
fn clone_lines_from(v: &Vec<LineEntry>, from: usize) -> (r: Vec<LineEntry>)
    requires
        from <= v@.len(),
    ensures
        lines_model(r@) == lines_model(v@).skip(from as int),
    decreases v@.len() - from,
{
    if from >= v.len() {
        let r: Vec<LineEntry> = Vec::new();
        proof {
            assert(lines_model(r@) =~= lines_model(v@).skip(from as int));
        }
        r
    } else {
        let mut t = clone_lines_from(v, from + 1);
        let ghost tm = lines_model(t@);
        t.insert(0, clone_line_entry(&v[from]));
        proof {
            assert(lines_model(t@) =~= seq![lines_model(v@)[from as int]] + tm);
            assert(lines_model(v@).skip(from as int) =~= seq![lines_model(v@)[from as int]]
                + lines_model(v@).skip(from + 1));
        }
        t
    }
}

/// Copy the tail of a function vector, from `from` on.
fn clone_functions_from(v: &Vec<FunctionEntry>, from: usize) -> (r: Vec<FunctionEntry>)
    requires
        from <= v@.len(),
    ensures
        fns_model(r@) == fns_model(v@).skip(from as int),
    decreases v@.len() - from,
{
    if from >= v.len() {
        let r: Vec<FunctionEntry> = Vec::new();
        proof {
            assert(fns_model(r@) =~= fns_model(v@).skip(from as int));
        }
        r
    } else {
        let mut t = clone_functions_from(v, from + 1);
        let ghost tm = fns_model(t@);
        let e = &v[from];
        t.insert(
            0,
            FunctionEntry { name: e.name.clone(), start_line: e.start_line, count: e.count },
        );
        proof {
            assert(fns_model(t@) =~= seq![fns_model(v@)[from as int]] + tm);
            assert(fns_model(v@).skip(from as int) =~= seq![fns_model(v@)[from as int]]
                + fns_model(v@).skip(from + 1));
        }
        t
    }
}

/// Copy the tail of a branch vector, from `from` on.
fn clone_branches_from(v: &Vec<BranchEntry>, from: usize) -> (r: Vec<BranchEntry>)
    requires
        from <= v@.len(),
    ensures
        brs_model(r@) == brs_model(v@).skip(from as int),
    decreases v@.len() - from,
{
    if from >= v.len() {
        let r: Vec<BranchEntry> = Vec::new();
        proof {
            assert(brs_model(r@) =~= brs_model(v@).skip(from as int));
        }
        r
    } else {
        let mut t = clone_branches_from(v, from + 1);
        let ghost tm = brs_model(t@);
        let e = &v[from];
        t.insert(
            0,
            BranchEntry { line: e.line, block: e.block, branch: e.branch, taken: e.taken },
        );
        proof {
            assert(brs_model(t@) =~= seq![brs_model(v@)[from as int]] + tm);
            assert(brs_model(v@).skip(from as int) =~= seq![brs_model(v@)[from as int]]
                + brs_model(v@).skip(from + 1));
        }
        t
    }
}

/// Copy one file summary.
fn clone_summary(s: &FileSummary) -> (r: FileSummary)
    ensures
        r@ == s@,
{
    let r = FileSummary {
        test_name: s.test_name.clone(),
        lines: clone_lines_from(&s.lines, 0),
        functions: clone_functions_from(&s.functions, 0),
        branches: clone_branches_from(&s.branches, 0),
    };
    proof {
        assert(lines_model(s.lines@).skip(0) =~= lines_model(s.lines@));
        assert(fns_model(s.functions@).skip(0) =~= fns_model(s.functions@));
        assert(brs_model(s.branches@).skip(0) =~= brs_model(s.branches@));
    }
    r
}

/// Copy the tail of a file vector, from `from` on.
fn clone_files_from(v: &Vec<FileEntry>, from: usize) -> (r: Vec<FileEntry>)
    requires
        from <= v@.len(),
    ensures
        files_model(r@) == files_model(v@).skip(from as int),
    decreases v@.len() - from,
{
    if from >= v.len() {
        let r: Vec<FileEntry> = Vec::new();
        proof {
            assert(files_model(r@) =~= files_model(v@).skip(from as int));
        }
        r
    } else {
        let mut t = clone_files_from(v, from + 1);
        let ghost tm = files_model(t@);
        let e = &v[from];
        t.insert(0, FileEntry { path: e.path.clone(), summary: clone_summary(&e.summary) });
        proof {
            assert(files_model(t@) =~= seq![files_model(v@)[from as int]] + tm);
            assert(files_model(v@).skip(from as int) =~= seq![files_model(v@)[from as int]]
                + files_model(v@).skip(from + 1));
        }
        t
    }
}

/// Merge the tails of two sorted line vectors, as [`merge_lines`] says.
fn merge_lines_exec(
    a: &Vec<LineEntry>,
    b: &Vec<LineEntry>,
    ai: usize,
    bi: usize,
    path: &String,
) -> (r: Result<Vec<LineEntry>, MergeError>)
    requires
        ai <= a@.len(),
        bi <= b@.len(),
    ensures
        match r {
            Ok(v) => merge_lines(
                lines_model(a@).skip(ai as int),
                lines_model(b@).skip(bi as int),
                path@,
            ) == Ok::<Seq<LineEntryModel>, MergeErrorModel>(lines_model(v@)),
            Err(e) => merge_lines(
                lines_model(a@).skip(ai as int),
                lines_model(b@).skip(bi as int),
                path@,
            ) == Err::<Seq<LineEntryModel>, MergeErrorModel>(e@),
        },
    decreases a@.len() + b@.len() - ai - bi,
{
    let ghost am = lines_model(a@).skip(ai as int);
    let ghost bm = lines_model(b@).skip(bi as int);
    if ai >= a.len() {
        let out = clone_lines_from(b, bi);
        proof {
            assert(am =~= Seq::<LineEntryModel>::empty());
        }
        Ok(out)
    } else if bi >= b.len() {
        let out = clone_lines_from(a, ai);
        proof {
            assert(bm =~= Seq::<LineEntryModel>::empty());
        }
        Ok(out)
    } else {
        proof {
            assert(am[0] == lines_model(a@)[ai as int]);
            assert(bm[0] == lines_model(b@)[bi as int]);
            assert(am.subrange(1, am.len() as int) =~= lines_model(a@).skip(ai + 1));
            assert(bm.subrange(1, bm.len() as int) =~= lines_model(b@).skip(bi + 1));
        }
        let la: u32 = a[ai].line;
        let lb: u32 = b[bi].line;
        if la < lb {
            match merge_lines_exec(a, b, ai + 1, bi, path) {
                Err(e) => Err(e),
                Ok(mut t) => {
                    let ghost tm = lines_model(t@);
                    t.insert(0, clone_line_entry(&a[ai]));
                    proof {
                        assert(lines_model(t@) =~= seq![am[0]] + tm);
                    }
                    Ok(t)
                },
            }
        } else if lb < la {
            match merge_lines_exec(a, b, ai, bi + 1, path) {
                Err(e) => Err(e),
                Ok(mut t) => {
                    let ghost tm = lines_model(t@);
                    t.insert(0, clone_line_entry(&b[bi]));
                    proof {
                        assert(lines_model(t@) =~= seq![bm[0]] + tm);
                    }
                    Ok(t)
                },
            }
        } else {
            let ck: Option<String> = match (&a[ai].checksum, &b[bi].checksum) {
                (Option::None, Option::None) => None,
                (Option::None, Option::Some(y)) => Some(y.clone()),
                (Option::Some(x), Option::None) => Some(x.clone()),
                (Option::Some(x), Option::Some(y)) => {
                    if x.eq(y) {
                        Some(x.clone())
                    } else {
                        return Err(
                            MergeError::ChecksumMismatch {
                                path: path.clone(),
                                line: la,
                                left: x.clone(),
                                right: y.clone(),
                            },
                        );
                    }
                },
            };
            if u64::MAX - b[bi].count < a[ai].count {
                return Err(MergeError::CounterOverflow);
            }
            let total: u64 = a[ai].count + b[bi].count;
            match merge_lines_exec(a, b, ai + 1, bi + 1, path) {
                Err(e) => Err(e),
                Ok(mut t) => {
                    let ghost tm = lines_model(t@);
                    t.insert(0, LineEntry { line: la, count: total, checksum: ck });
                    proof {
                        assert(lines_model(t@) =~= seq![
                            LineEntryModel {
                                line: la,
                                count: total,
                                checksum: match reconcile_checksum(am[0].checksum, bm[0].checksum) {
                                    Ok(c) => c,
                                    Err(_) => None,
                                },
                            }
                        ] + tm);
                    }
                    Ok(t)
                },
            }
        }
    }
}

/// Merge the tails of two name-sorted function vectors, as
/// [`merge_functions`] says.
fn merge_functions_exec(
    a: &Vec<FunctionEntry>,
    b: &Vec<FunctionEntry>,
    ai: usize,
    bi: usize,
    path: &String,
) -> (r: Result<Vec<FunctionEntry>, MergeError>)
    requires
        ai <= a@.len(),
        bi <= b@.len(),
    ensures
        match r {
            Ok(v) => merge_functions(
                fns_model(a@).skip(ai as int),
                fns_model(b@).skip(bi as int),
                path@,
            ) == Ok::<Seq<FunctionEntryModel>, MergeErrorModel>(fns_model(v@)),
            Err(e) => merge_functions(
                fns_model(a@).skip(ai as int),
                fns_model(b@).skip(bi as int),
                path@,
            ) == Err::<Seq<FunctionEntryModel>, MergeErrorModel>(e@),
        },
    decreases a@.len() + b@.len() - ai - bi,
{
    let ghost am = fns_model(a@).skip(ai as int);
    let ghost bm = fns_model(b@).skip(bi as int);
    if ai >= a.len() {
        let out = clone_functions_from(b, bi);
        proof {
            assert(am =~= Seq::<FunctionEntryModel>::empty());
        }
        Ok(out)
    } else if bi >= b.len() {
        let out = clone_functions_from(a, ai);
        proof {
            assert(bm =~= Seq::<FunctionEntryModel>::empty());
        }
        Ok(out)
    } else {
        proof {
            assert(am[0] == fns_model(a@)[ai as int]);
            assert(bm[0] == fns_model(b@)[bi as int]);
            assert(am.subrange(1, am.len() as int) =~= fns_model(a@).skip(ai + 1));
            assert(bm.subrange(1, bm.len() as int) =~= fns_model(b@).skip(bi + 1));
        }
        if str_lt(a[ai].name.as_str(), b[bi].name.as_str()) {
            match merge_functions_exec(a, b, ai + 1, bi, path) {
                Err(e) => Err(e),
                Ok(mut t) => {
                    let ghost tm = fns_model(t@);
                    let e = &a[ai];
                    t.insert(
                        0,
                        FunctionEntry {
                            name: e.name.clone(),
                            start_line: e.start_line,
                            count: e.count,
                        },
                    );
                    proof {
                        assert(fns_model(t@) =~= seq![am[0]] + tm);
                    }
                    Ok(t)
                },
            }
        } else if str_lt(b[bi].name.as_str(), a[ai].name.as_str()) {
            match merge_functions_exec(a, b, ai, bi + 1, path) {
                Err(e) => Err(e),
                Ok(mut t) => {
                    let ghost tm = fns_model(t@);
                    let e = &b[bi];
                    t.insert(
                        0,
                        FunctionEntry {
                            name: e.name.clone(),
                            start_line: e.start_line,
                            count: e.count,
                        },
                    );
                    proof {
                        assert(fns_model(t@) =~= seq![bm[0]] + tm);
                    }
                    Ok(t)
                },
            }
        } else {
            proof {
                lemma_lex_trichotomy(am[0].name, bm[0].name);
            }
            let sa: u32 = a[ai].start_line;
            let sb: u32 = b[bi].start_line;
            if sa != sb && sa != 0 && sb != 0 {
                return Err(
                    MergeError::FunctionLineMismatch {
                        path: path.clone(),
                        name: a[ai].name.clone(),
                        left: sa,
                        right: sb,
                    },
                );
            }
            if u64::MAX - b[bi].count < a[ai].count {
                return Err(MergeError::CounterOverflow);
            }
            let total: u64 = a[ai].count + b[bi].count;
            match merge_functions_exec(a, b, ai + 1, bi + 1, path) {
                Err(e) => Err(e),
                Ok(mut t) => {
                    let ghost tm = fns_model(t@);
                    t.insert(
                        0,
                        FunctionEntry {
                            name: a[ai].name.clone(),
                            start_line: if sa != 0 {
                                sa
                            } else {
                                sb
                            },
                            count: total,
                        },
                    );
                    proof {
                        assert(fns_model(t@) =~= seq![
                            FunctionEntryModel {
                                name: am[0].name,
                                start_line: if am[0].start_line != 0 {
                                    am[0].start_line
                                } else {
                                    bm[0].start_line
                                },
                                count: total,
                            }
                        ] + tm);
                    }
                    Ok(t)
                },
            }
        }
    }
}

/// Merge the tails of two key-sorted branch vectors, as [`merge_branches`]
/// says.
fn merge_branches_exec(a: &Vec<BranchEntry>, b: &Vec<BranchEntry>, ai: usize, bi: usize) -> (r:
    Result<Vec<BranchEntry>, MergeError>)
    requires
        ai <= a@.len(),
        bi <= b@.len(),
    ensures
        match r {
            Ok(v) => merge_branches(brs_model(a@).skip(ai as int), brs_model(b@).skip(bi as int))
                == Ok::<Seq<BranchEntryModel>, MergeErrorModel>(brs_model(v@)),
            Err(e) => merge_branches(brs_model(a@).skip(ai as int), brs_model(b@).skip(bi as int))
                == Err::<Seq<BranchEntryModel>, MergeErrorModel>(e@),
        },
    decreases a@.len() + b@.len() - ai - bi,
{
    let ghost am = brs_model(a@).skip(ai as int);
    let ghost bm = brs_model(b@).skip(bi as int);
    if ai >= a.len() {
        let out = clone_branches_from(b, bi);
        proof {
            assert(am =~= Seq::<BranchEntryModel>::empty());
        }
        Ok(out)
    } else if bi >= b.len() {
        let out = clone_branches_from(a, ai);
        proof {
            assert(bm =~= Seq::<BranchEntryModel>::empty());
        }
        Ok(out)
    } else {
        proof {
            assert(am[0] == brs_model(a@)[ai as int]);
            assert(bm[0] == brs_model(b@)[bi as int]);
            assert(am.subrange(1, am.len() as int) =~= brs_model(a@).skip(ai + 1));
            assert(bm.subrange(1, bm.len() as int) =~= brs_model(b@).skip(bi + 1));
        }
        let ea_lt = a[ai].line < b[bi].line || (a[ai].line == b[bi].line && a[ai].block
            < b[bi].block) || (a[ai].line == b[bi].line && a[ai].block == b[bi].block
            && a[ai].branch < b[bi].branch);
        let eb_lt = b[bi].line < a[ai].line || (b[bi].line == a[ai].line && b[bi].block
            < a[ai].block) || (b[bi].line == a[ai].line && b[bi].block == a[ai].block
            && b[bi].branch < a[ai].branch);
        if ea_lt {
            match merge_branches_exec(a, b, ai + 1, bi) {
                Err(e) => Err(e),
                Ok(mut t) => {
                    let ghost tm = brs_model(t@);
                    let e = &a[ai];
                    t.insert(
                        0,
                        BranchEntry {
                            line: e.line,
                            block: e.block,
                            branch: e.branch,
                            taken: e.taken,
                        },
                    );
                    proof {
                        assert(brs_model(t@) =~= seq![am[0]] + tm);
                    }
                    Ok(t)
                },
            }
        } else if eb_lt {
            match merge_branches_exec(a, b, ai, bi + 1) {
                Err(e) => Err(e),
                Ok(mut t) => {
                    let ghost tm = brs_model(t@);
                    let e = &b[bi];
                    t.insert(
                        0,
                        BranchEntry {
                            line: e.line,
                            block: e.block,
                            branch: e.branch,
                            taken: e.taken,
                        },
                    );
                    proof {
                        assert(brs_model(t@) =~= seq![bm[0]] + tm);
                    }
                    Ok(t)
                },
            }
        } else {
            let combined: Option<u64> = match (a[ai].taken, b[bi].taken) {
                (Option::None, x) => x,
                (Option::Some(x), Option::None) => Some(x),
                (Option::Some(x), Option::Some(y)) => {
                    if u64::MAX - y < x {
                        return Err(MergeError::CounterOverflow);
                    }
                    Some(x + y)
                },
            };
            match merge_branches_exec(a, b, ai + 1, bi + 1) {
                Err(e) => Err(e),
                Ok(mut t) => {
                    let ghost tm = brs_model(t@);
                    t.insert(
                        0,
                        BranchEntry {
                            line: a[ai].line,
                            block: a[ai].block,
                            branch: a[ai].branch,
                            taken: combined,
                        },
                    );
                    proof {
                        assert(brs_model(t@) =~= seq![
                            BranchEntryModel {
                                line: am[0].line,
                                block: am[0].block,
                                branch: am[0].branch,
                                taken: match combine_taken(am[0].taken, bm[0].taken) {
                                    Ok(x) => x,
                                    Err(_) => None,
                                },
                            }
                        ] + tm);
                    }
                    Ok(t)
                },
            }
        }
    }
}

/// Merge two file summaries, as [`merge_summary`] says.
fn merge_summary_exec(a: &FileSummary, b: &FileSummary, path: &String) -> (r: Result<
    FileSummary,
    MergeError,
>)
    ensures
        match r {
            Ok(s) => merge_summary(a@, b@, path@) == Ok::<FileSummaryModel, MergeErrorModel>(s@),
            Err(e) => merge_summary(a@, b@, path@) == Err::<FileSummaryModel, MergeErrorModel>(
                e@,
            ),
        },
{
    proof {
        assert(lines_model(a.lines@).skip(0) =~= lines_model(a.lines@));
        assert(lines_model(b.lines@).skip(0) =~= lines_model(b.lines@));
        assert(fns_model(a.functions@).skip(0) =~= fns_model(a.functions@));
        assert(fns_model(b.functions@).skip(0) =~= fns_model(b.functions@));
        assert(brs_model(a.branches@).skip(0) =~= brs_model(a.branches@));
        assert(brs_model(b.branches@).skip(0) =~= brs_model(b.branches@));
    }
    let lines = match merge_lines_exec(&a.lines, &b.lines, 0, 0, path) {
        Ok(l) => l,
        Err(e) => {
            return Err(e);
        },
    };
    let functions = match merge_functions_exec(&a.functions, &b.functions, 0, 0, path) {
        Ok(f) => f,
        Err(e) => {
            return Err(e);
        },
    };
    let branches = match merge_branches_exec(&a.branches, &b.branches, 0, 0) {
        Ok(x) => x,
        Err(e) => {
            return Err(e);
        },
    };
    let test_name = if !a.test_name.as_str().is_empty() {
        a.test_name.clone()
    } else {
        b.test_name.clone()
    };
    Ok(FileSummary { test_name, lines, functions, branches })
}

/// Merge the tails of two path-sorted file vectors, as
/// [`merge_files_model`] says.
fn merge_files_exec(a: &Vec<FileEntry>, b: &Vec<FileEntry>, ai: usize, bi: usize) -> (r: Result<
    Vec<FileEntry>,
    MergeError,
>)
    requires
        ai <= a@.len(),
        bi <= b@.len(),
    ensures
        match r {
            Ok(v) => merge_files_model(
                files_model(a@).skip(ai as int),
                files_model(b@).skip(bi as int),
            ) == Ok::<Seq<FileEntryModel>, MergeErrorModel>(files_model(v@)),
            Err(e) => merge_files_model(
                files_model(a@).skip(ai as int),
                files_model(b@).skip(bi as int),
            ) == Err::<Seq<FileEntryModel>, MergeErrorModel>(e@),
        },
    decreases a@.len() + b@.len() - ai - bi,
{
    let ghost am = files_model(a@).skip(ai as int);
    let ghost bm = files_model(b@).skip(bi as int);
    if ai >= a.len() {
        let out = clone_files_from(b, bi);
        proof {
            assert(am =~= Seq::<FileEntryModel>::empty());
        }
        Ok(out)
    } else if bi >= b.len() {
        let out = clone_files_from(a, ai);
        proof {
            assert(bm =~= Seq::<FileEntryModel>::empty());
        }
        Ok(out)
    } else {
        proof {
            assert(am[0] == files_model(a@)[ai as int]);
            assert(bm[0] == files_model(b@)[bi as int]);
            assert(am.subrange(1, am.len() as int) =~= files_model(a@).skip(ai + 1));
            assert(bm.subrange(1, bm.len() as int) =~= files_model(b@).skip(bi + 1));
        }
        if str_lt(a[ai].path.as_str(), b[bi].path.as_str()) {
            match merge_files_exec(a, b, ai + 1, bi) {
                Err(e) => Err(e),
                Ok(mut t) => {
                    let ghost tm = files_model(t@);
                    let e = &a[ai];
                    t.insert(
                        0,
                        FileEntry { path: e.path.clone(), summary: clone_summary(&e.summary) },
                    );
                    proof {
                        assert(files_model(t@) =~= seq![am[0]] + tm);
                    }
                    Ok(t)
                },
            }
        } else if str_lt(b[bi].path.as_str(), a[ai].path.as_str()) {
            match merge_files_exec(a, b, ai, bi + 1) {
                Err(e) => Err(e),
                Ok(mut t) => {
                    let ghost tm = files_model(t@);
                    let e = &b[bi];
                    t.insert(
                        0,
                        FileEntry { path: e.path.clone(), summary: clone_summary(&e.summary) },
                    );
                    proof {
                        assert(files_model(t@) =~= seq![bm[0]] + tm);
                    }
                    Ok(t)
                },
            }
        } else {
            proof {
                lemma_lex_trichotomy(am[0].path, bm[0].path);
            }
            let merged = match merge_summary_exec(&a[ai].summary, &b[bi].summary, &a[ai].path) {
                Ok(s) => s,
                Err(e) => {
                    return Err(e);
                },
            };
            match merge_files_exec(a, b, ai + 1, bi + 1) {
                Err(e) => Err(e),
                Ok(mut t) => {
                    let ghost tm = files_model(t@);
                    t.insert(0, FileEntry { path: a[ai].path.clone(), summary: merged });
                    proof {
                        assert(files_model(t@) =~= seq![
                            FileEntryModel {
                                path: am[0].path,
                                summary: match merge_summary(am[0].summary, bm[0].summary, am[0].path) {
                                    Ok(s) => s,
                                    Err(_) => am[0].summary,
                                },
                            }
                        ] + tm);
                    }
                    Ok(t)
                },
            }
        }
    }
}

impl Report {
    /// Merge this report with another into a new report: paths on one side
    /// keep their summaries, paths on both have line counts summed,
    /// checksums reconciled, function start lines resolved toward the
    /// non-zero side, and taken counts combined — exactly as
    /// [`merge_files_model`] says.
    pub fn merge(&self, other: &Report) -> (r: Result<Report, MergeError>)
        ensures
            match r {
                Ok(rep) => merge_files_model(self@, other@) == Ok::<
                    Seq<FileEntryModel>,
                    MergeErrorModel,
                >(rep@),
                Err(e) => merge_files_model(self@, other@) == Err::<
                    Seq<FileEntryModel>,
                    MergeErrorModel,
                >(e@),
            },
    {
        proof {
            assert(files_model(self.files@).skip(0) =~= files_model(self.files@));
            assert(files_model(other.files@).skip(0) =~= files_model(other.files@));
        }
        match merge_files_exec(&self.files, &other.files, 0, 0) {
            Ok(files) => Ok(Report { files }),
            Err(e) => Err(e),
        }
    }
}

/// Merging any report with the empty report gives it back unchanged.
pub proof fn lemma_merge_empty(a: Seq<FileEntryModel>)
    ensures
        merge_files_model(a, Seq::<FileEntryModel>::empty()) == Ok::<
            Seq<FileEntryModel>,
            MergeErrorModel,
        >(a),
        merge_files_model(Seq::<FileEntryModel>::empty(), a) == Ok::<
            Seq<FileEntryModel>,
            MergeErrorModel,
        >(a),
{
    if a.len() == 0 {
        assert(a =~= Seq::<FileEntryModel>::empty());
    }
}

/// Function emission order: by start line, then by name.
pub open spec fn fn_line_lt(a: FunctionEntryModel, b: FunctionEntryModel) -> bool {
    a.start_line < b.start_line || (a.start_line == b.start_line && lex_lt(a.name, b.name))
}

/// Insert one function entry into a line-ordered sequence.
pub open spec fn insert_fn_by_line(
    sorted: Seq<FunctionEntryModel>,
    e: FunctionEntryModel,
) -> Seq<FunctionEntryModel>
    decreases sorted.len(),
{
    if sorted.len() == 0 {
        seq![e]
    } else if fn_line_lt(e, sorted[0]) {
        seq![e] + sorted
    } else {
        seq![sorted[0]] + insert_fn_by_line(sorted.subrange(1, sorted.len() as int), e)
    }
}

/// The function entries rearranged into emission order, by insertion sort.
pub open spec fn sort_fns(fns: Seq<FunctionEntryModel>) -> Seq<FunctionEntryModel>
    decreases fns.len(),
{
    if fns.len() == 0 {
        Seq::<FunctionEntryModel>::empty()
    } else {
        insert_fn_by_line(sort_fns(fns.subrange(1, fns.len() as int)), fns[0])
    }
}

/// The `FN` records of a function sequence, in its order.
pub open spec fn fn_records(fns: Seq<FunctionEntryModel>) -> Seq<RecordModel>
    decreases fns.len(),
{
    if fns.len() == 0 {
        Seq::<RecordModel>::empty()
    } else {
        seq![RecordModel::FunctionName { name: fns[0].name, start_line: fns[0].start_line }]
            + fn_records(fns.subrange(1, fns.len() as int))
    }
}

/// The `FNDA` records of a function sequence, in its order.
pub open spec fn fnda_records(fns: Seq<FunctionEntryModel>) -> Seq<RecordModel>
    decreases fns.len(),
{
    if fns.len() == 0 {
        Seq::<RecordModel>::empty()
    } else {
        seq![RecordModel::FunctionData { name: fns[0].name, count: fns[0].count }] + fnda_records(
            fns.subrange(1, fns.len() as int),
        )
    }
}

/// The `BRDA` records of a branch sequence, in its order.
pub open spec fn brda_records(brs: Seq<BranchEntryModel>) -> Seq<RecordModel>
    decreases brs.len(),
{
    if brs.len() == 0 {
        Seq::<RecordModel>::empty()
    } else {
        seq![
            RecordModel::BranchData {
                line: brs[0].line,
                block: brs[0].block,
                branch: brs[0].branch,
                taken: brs[0].taken,
            }
        ] + brda_records(brs.subrange(1, brs.len() as int))
    }
}

/// The `DA` records of a line sequence, in its order.
pub open spec fn da_records(lines: Seq<LineEntryModel>) -> Seq<RecordModel>
    decreases lines.len(),
{
    if lines.len() == 0 {
        Seq::<RecordModel>::empty()
    } else {
        seq![
            RecordModel::LineData {
                line: lines[0].line,
                count: lines[0].count,
                checksum: lines[0].checksum,
            }
        ] + da_records(lines.subrange(1, lines.len() as int))
    }
}

/// The canonical record block of one file: `TN` (when a test name is set),
/// `SF`, `FN` sorted by start line then name, `FNDA` in name order, the
/// derived function totals, `BRDA` in key order with its totals, `DA` in
/// line order with its totals, and `end_of_record`.
pub open spec fn emit_file(f: FileEntryModel) -> Seq<RecordModel> {
    (if f.summary.test_name.len() > 0 {
        seq![RecordModel::TestName { name: f.summary.test_name }]
    } else {
        Seq::<RecordModel>::empty()
    }) + seq![RecordModel::SourceFile { path: f.path }] + fn_records(sort_fns(f.summary.functions))
        + fnda_records(f.summary.functions) + seq![
        RecordModel::FunctionsFound { found: f.summary.functions.len() as u64 },
        RecordModel::FunctionsHit { hit: spec_functions_hit(f.summary.functions) as u64 },
    ] + brda_records(f.summary.branches) + seq![
        RecordModel::BranchesFound { found: f.summary.branches.len() as u64 },
        RecordModel::BranchesHit { hit: spec_branches_hit(f.summary.branches) as u64 },
    ] + da_records(f.summary.lines) + seq![
        RecordModel::LinesFound { found: f.summary.lines.len() as u64 },
        RecordModel::LinesHit { hit: spec_lines_hit(f.summary.lines) as u64 },
        RecordModel::EndOfRecord,
    ]
}

/// The canonical record stream of a report: each file's block, in the
/// report's path order.
pub open spec fn emit_model(files: Seq<FileEntryModel>) -> Seq<RecordModel>
    decreases files.len(),
{
    if files.len() == 0 {
        Seq::<RecordModel>::empty()
    } else {
        emit_file(files[0]) + emit_model(files.subrange(1, files.len() as int))
    }
}

/// Insert one function entry into a vector in emission order.
fn insert_fn_sorted(v: Vec<FunctionEntry>, e: FunctionEntry) -> (out: Vec<FunctionEntry>)
    ensures
        fns_model(out@) == insert_fn_by_line(fns_model(v@), e@),
    decreases v@.len(),
{
    let ghost vm = fns_model(v@);
    if v.len() == 0 {
        let mut out: Vec<FunctionEntry> = Vec::new();
        out.push(e);
        proof {
            assert(fns_model(out@) =~= seq![e@]);
        }
        out
    } else {
        let lt = e.start_line < v[0].start_line || (e.start_line == v[0].start_line && str_lt(
            e.name.as_str(),
            v[0].name.as_str(),
        ));
        proof {
            assert(vm[0] == v@[0]@);
        }
        if lt {
            let mut out = v;
            out.insert(0, e);
            proof {
                assert(fns_model(out@) =~= seq![e@] + vm);
            }
            out
        } else {
            let mut v2 = v;
            let h = v2.remove(0);
            proof {
                assert(fns_model(v2@) =~= vm.subrange(1, vm.len() as int));
            }
            let mut t = insert_fn_sorted(v2, e);
            let ghost tm = fns_model(t@);
            t.insert(0, h);
            proof {
                assert(fns_model(t@) =~= seq![vm[0]] + tm);
            }
            t
        }
    }
}

/// The function entries of `v`, from `from` on, in emission order.
fn sort_functions_from(v: &Vec<FunctionEntry>, from: usize) -> (out: Vec<FunctionEntry>)
    requires
        from <= v@.len(),
    ensures
        fns_model(out@) == sort_fns(fns_model(v@).skip(from as int)),
    decreases v@.len() - from,
{
    let ghost vm = fns_model(v@).skip(from as int);
    if from >= v.len() {
        let out: Vec<FunctionEntry> = Vec::new();
        proof {
            assert(fns_model(out@) =~= Seq::<FunctionEntryModel>::empty());
            assert(vm =~= Seq::<FunctionEntryModel>::empty());
        }
        out
    } else {
        let t = sort_functions_from(v, from + 1);
        let e = &v[from];
        let out = insert_fn_sorted(
            t,
            FunctionEntry { name: e.name.clone(), start_line: e.start_line, count: e.count },
        );
        proof {
            assert(vm[0] == fns_model(v@)[from as int]);
            assert(vm.subrange(1, vm.len() as int) =~= fns_model(v@).skip(from + 1));
        }
        out
    }
}

/// The `FN` records of the tail of a function vector.
fn emit_fn_records(v: &Vec<FunctionEntry>, from: usize) -> (out: Vec<Record>)
    requires
        from <= v@.len(),
    ensures
        records_model(out@) == fn_records(fns_model(v@).skip(from as int)),
    decreases v@.len() - from,
{
    let ghost vm = fns_model(v@).skip(from as int);
    if from >= v.len() {
        let out: Vec<Record> = Vec::new();
        proof {
            assert(records_model(out@) =~= Seq::<RecordModel>::empty());
            assert(vm =~= Seq::<FunctionEntryModel>::empty());
        }
        out
    } else {
        let mut t = emit_fn_records(v, from + 1);
        let ghost tm = records_model(t@);
        let e = &v[from];
        t.insert(0, Record::FunctionName { name: e.name.clone(), start_line: e.start_line });
        proof {
            assert(vm[0] == fns_model(v@)[from as int]);
            assert(vm.subrange(1, vm.len() as int) =~= fns_model(v@).skip(from + 1));
            assert(records_model(t@) =~= seq![
                RecordModel::FunctionName { name: vm[0].name, start_line: vm[0].start_line }
            ] + tm);
        }
        t
    }
}

/// The `FNDA` records of the tail of a function vector.
fn emit_fnda_records(v: &Vec<FunctionEntry>, from: usize) -> (out: Vec<Record>)
    requires
        from <= v@.len(),
    ensures
        records_model(out@) == fnda_records(fns_model(v@).skip(from as int)),
    decreases v@.len() - from,
{
    let ghost vm = fns_model(v@).skip(from as int);
    if from >= v.len() {
        let out: Vec<Record> = Vec::new();
        proof {
            assert(records_model(out@) =~= Seq::<RecordModel>::empty());
            assert(vm =~= Seq::<FunctionEntryModel>::empty());
        }
        out
    } else {
        let mut t = emit_fnda_records(v, from + 1);
        let ghost tm = records_model(t@);
        let e = &v[from];
        t.insert(0, Record::FunctionData { name: e.name.clone(), count: e.count });
        proof {
            assert(vm[0] == fns_model(v@)[from as int]);
            assert(vm.subrange(1, vm.len() as int) =~= fns_model(v@).skip(from + 1));
            assert(records_model(t@) =~= seq![
                RecordModel::FunctionData { name: vm[0].name, count: vm[0].count }
            ] + tm);
        }
        t
    }
}

/// The `BRDA` records of the tail of a branch vector.
fn emit_brda_records(v: &Vec<BranchEntry>, from: usize) -> (out: Vec<Record>)
    requires
        from <= v@.len(),
    ensures
        records_model(out@) == brda_records(brs_model(v@).skip(from as int)),
    decreases v@.len() - from,
{
    let ghost vm = brs_model(v@).skip(from as int);
    if from >= v.len() {
        let out: Vec<Record> = Vec::new();
        proof {
            assert(records_model(out@) =~= Seq::<RecordModel>::empty());
            assert(vm =~= Seq::<BranchEntryModel>::empty());
        }
        out
    } else {
        let mut t = emit_brda_records(v, from + 1);
        let ghost tm = records_model(t@);
        let e = &v[from];
        t.insert(
            0,
            Record::BranchData { line: e.line, block: e.block, branch: e.branch, taken: e.taken },
        );
        proof {
            assert(vm[0] == brs_model(v@)[from as int]);
            assert(vm.subrange(1, vm.len() as int) =~= brs_model(v@).skip(from + 1));
            assert(records_model(t@) =~= seq![
                RecordModel::BranchData {
                    line: vm[0].line,
                    block: vm[0].block,
                    branch: vm[0].branch,
                    taken: vm[0].taken,
                }
            ] + tm);
        }
        t
    }
}

/// The `DA` records of the tail of a line vector.
fn emit_da_records(v: &Vec<LineEntry>, from: usize) -> (out: Vec<Record>)
    requires
        from <= v@.len(),
    ensures
        records_model(out@) == da_records(lines_model(v@).skip(from as int)),
    decreases v@.len() - from,
{
    let ghost vm = lines_model(v@).skip(from as int);
    if from >= v.len() {
        let out: Vec<Record> = Vec::new();
        proof {
            assert(records_model(out@) =~= Seq::<RecordModel>::empty());
            assert(vm =~= Seq::<LineEntryModel>::empty());
        }
        out
    } else {
        let mut t = emit_da_records(v, from + 1);
        let ghost tm = records_model(t@);
        let e = &v[from];
        t.insert(
            0,
            Record::LineData {
                line: e.line,
                count: e.count,
                checksum: match &e.checksum {
                    Some(c) => Some(c.clone()),
                    None => None,
                },
            },
        );
        proof {
            assert(vm[0] == lines_model(v@)[from as int]);
            assert(vm.subrange(1, vm.len() as int) =~= lines_model(v@).skip(from + 1));
            assert(records_model(t@) =~= seq![
                RecordModel::LineData {
                    line: vm[0].line,
                    count: vm[0].count,
                    checksum: vm[0].checksum,
                }
            ] + tm);
        }
        t
    }
}

/// The canonical record block of one file, as [`emit_file`] says.
fn emit_one_file(fe: &FileEntry) -> (out: Vec<Record>)
    ensures
        records_model(out@) == emit_file(fe@),
{
    let mut out: Vec<Record> = Vec::new();
    if !fe.summary.test_name.as_str().is_empty() {
        out.push(Record::TestName { name: fe.summary.test_name.clone() });
    }
    out.push(Record::SourceFile { path: fe.path.clone() });
    let sorted = sort_functions_from(&fe.summary.functions, 0);
    proof {
        assert(fns_model(fe.summary.functions@).skip(0) =~= fns_model(fe.summary.functions@));
    }
    let mut part = emit_fn_records(&sorted, 0);
    proof {
        assert(fns_model(sorted@).skip(0) =~= fns_model(sorted@));
    }
    out.append(&mut part);
    let mut part = emit_fnda_records(&fe.summary.functions, 0);
    out.append(&mut part);
    let nf: usize = fe.summary.functions.len();
    let nb: usize = fe.summary.branches.len();
    let nl: usize = fe.summary.lines.len();
    proof {
        assert(nf <= usize::MAX && nb <= usize::MAX && nl <= usize::MAX);
        assert(fe.summary.functions@.len() <= u64::MAX);
        assert(fe.summary.branches@.len() <= u64::MAX);
        assert(fe.summary.lines@.len() <= u64::MAX);
    }
    out.push(Record::FunctionsFound { found: fe.summary.functions_found() });
    out.push(Record::FunctionsHit { hit: fe.summary.functions_hit() });
    let mut part = emit_brda_records(&fe.summary.branches, 0);
    proof {
        assert(brs_model(fe.summary.branches@).skip(0) =~= brs_model(fe.summary.branches@));
    }
    out.append(&mut part);
    out.push(Record::BranchesFound { found: fe.summary.branches_found() });
    out.push(Record::BranchesHit { hit: fe.summary.branches_hit() });
    let mut part = emit_da_records(&fe.summary.lines, 0);
    proof {
        assert(lines_model(fe.summary.lines@).skip(0) =~= lines_model(fe.summary.lines@));
    }
    out.append(&mut part);
    out.push(Record::LinesFound { found: fe.summary.lines_found() });
    out.push(Record::LinesHit { hit: fe.summary.lines_hit() });
    out.push(Record::EndOfRecord);
    proof {
        assert(records_model(out@) =~= emit_file(fe@));
    }
    out
}

/// The record blocks of the tail of a file vector.
fn emit_files_from(files: &Vec<FileEntry>, from: usize) -> (out: Vec<Record>)
    requires
        from <= files@.len(),
    ensures
        records_model(out@) == emit_model(files_model(files@).skip(from as int)),
    decreases files@.len() - from,
{
    let ghost vm = files_model(files@).skip(from as int);
    if from >= files.len() {
        let out: Vec<Record> = Vec::new();
        proof {
            assert(records_model(out@) =~= Seq::<RecordModel>::empty());
            assert(vm =~= Seq::<FileEntryModel>::empty());
        }
        out
    } else {
        let mut out = emit_one_file(&files[from]);
        let ghost hm = records_model(out@);
        let mut rest = emit_files_from(files, from + 1);
        let ghost rm = records_model(rest@);
        out.append(&mut rest);
        proof {
            assert(vm[0] == files_model(files@)[from as int]);
            assert(vm.subrange(1, vm.len() as int) =~= files_model(files@).skip(from + 1));
            assert(records_model(out@) =~= hm + rm);
        }
        out
    }
}

impl Report {
    /// Re-emit the report as its canonical record stream, exactly as
    /// [`emit_model`] says: files in path order, each file's block ordered
    /// as [`emit_file`] describes, with the found/hit totals derived from
    /// the maps.
    pub fn records(&self) -> (out: Vec<Record>)
        ensures
            records_model(out@) == emit_model(self@),
    {
        let out = emit_files_from(&self.files, 0);
        proof {
            assert(files_model(self.files@).skip(0) =~= files_model(self.files@));
        }
        out
    }
}

/// Merging two entries for one line keeps an agreed checksum: when the
/// checksums are equal (or both absent) and the counts fit, the merged
/// entry carries the same checksum and the summed count; two different
/// present checksums are exactly the checksum-mismatch error.
pub proof fn lemma_checksum_merge(a: LineEntryModel, b: LineEntryModel, path: Seq<char>)
    requires
        a.line == b.line,
    ensures
        (a.checksum == b.checksum && a.count + b.count <= u64::MAX) ==> merge_lines(
            seq![a],
            seq![b],
            path,
        ) == Ok::<Seq<LineEntryModel>, MergeErrorModel>(
            seq![
                LineEntryModel {
                    line: a.line,
                    count: (a.count + b.count) as u64,
                    checksum: a.checksum,
                }
            ],
        ),
        (a.checksum matches Some(x) && b.checksum matches Some(y) && x != y) ==> merge_lines(
            seq![a],
            seq![b],
            path,
        ) == Err::<Seq<LineEntryModel>, MergeErrorModel>(
            (MergeErrorModel::ChecksumMismatch {
                path,
                line: a.line,
                left: a.checksum.unwrap(),
                right: b.checksum.unwrap(),
            }),
        ),
{
    let sa = seq![a];
    let sb = seq![b];
    assert(sa.subrange(1, 1) =~= Seq::<LineEntryModel>::empty());
    assert(sb.subrange(1, 1) =~= Seq::<LineEntryModel>::empty());
    if a.checksum == b.checksum && a.count + b.count <= u64::MAX {
        let m = LineEntryModel {
            line: a.line,
            count: (a.count + b.count) as u64,
            checksum: a.checksum,
        };
        assert(merge_lines(sa.subrange(1, 1), sb.subrange(1, 1), path) == Ok::<
            Seq<LineEntryModel>,
            MergeErrorModel,
        >(Seq::<LineEntryModel>::empty()));
        assert(seq![m] + Seq::<LineEntryModel>::empty() =~= seq![m]);
    }
}

/// The per-entry combiners of accumulation and merging are commutative:
/// counts and taken counts add symmetrically, and checksum reconciliation
/// gives the same checksum (and fails together) in either order.
pub proof fn lemma_combine_commutative(
    a: Option<u64>,
    b: Option<u64>,
    x: u64,
    y: u64,
    ca: Option<Seq<char>>,
    cb: Option<Seq<char>>,
)
    ensures
        combine_taken(a, b) == combine_taken(b, a),
        add_counts(x, y) == add_counts(y, x),
        (reconcile_checksum(ca, cb) matches Ok(c) ==> reconcile_checksum(cb, ca) == Ok::<
            Option<Seq<char>>,
            (Seq<char>, Seq<char>),
        >(c)),
        (reconcile_checksum(ca, cb) is Err <==> reconcile_checksum(cb, ca) is Err),
{
}

/// Merging line maps is commutative: both orders succeed together, and on
/// success give the same map.
pub proof fn lemma_merge_lines_commutative(
    a: Seq<LineEntryModel>,
    b: Seq<LineEntryModel>,
    path: Seq<char>,
)
    ensures
        merge_lines(a, b, path) is Ok <==> merge_lines(b, a, path) is Ok,
        merge_lines(a, b, path) matches Ok(t) ==> merge_lines(b, a, path) == Ok::<
            Seq<LineEntryModel>,
            MergeErrorModel,
        >(t),
    decreases a.len() + b.len(),
{
    if a.len() == 0 || b.len() == 0 {
        if a.len() == 0 && b.len() == 0 {
            assert(a =~= b);
        }
    } else if a[0].line < b[0].line {
        lemma_merge_lines_commutative(a.subrange(1, a.len() as int), b, path);
    } else if b[0].line < a[0].line {
        lemma_merge_lines_commutative(a, b.subrange(1, b.len() as int), path);
    } else {
        lemma_merge_lines_commutative(
            a.subrange(1, a.len() as int),
            b.subrange(1, b.len() as int),
            path,
        );
    }
}

/// Merging function maps is commutative: both orders succeed together, and
/// on success give the same map.
pub proof fn lemma_merge_functions_commutative(
    a: Seq<FunctionEntryModel>,
    b: Seq<FunctionEntryModel>,
    path: Seq<char>,
)
    ensures
        merge_functions(a, b, path) is Ok <==> merge_functions(b, a, path) is Ok,
        merge_functions(a, b, path) matches Ok(t) ==> merge_functions(b, a, path) == Ok::<
            Seq<FunctionEntryModel>,
            MergeErrorModel,
        >(t),
    decreases a.len() + b.len(),
{
    if a.len() == 0 || b.len() == 0 {
        if a.len() == 0 && b.len() == 0 {
            assert(a =~= b);
        }
    } else if lex_lt(a[0].name, b[0].name) {
        lemma_lex_trichotomy(a[0].name, b[0].name);
        lemma_merge_functions_commutative(a.subrange(1, a.len() as int), b, path);
    } else if lex_lt(b[0].name, a[0].name) {
        lemma_lex_trichotomy(a[0].name, b[0].name);
        lemma_merge_functions_commutative(a, b.subrange(1, b.len() as int), path);
    } else {
        lemma_lex_trichotomy(a[0].name, b[0].name);
        lemma_merge_functions_commutative(
            a.subrange(1, a.len() as int),
            b.subrange(1, b.len() as int),
            path,
        );
    }
}

/// Merging branch maps is commutative: both orders succeed together, and
/// on success give the same map.
pub proof fn lemma_merge_branches_commutative(a: Seq<BranchEntryModel>, b: Seq<BranchEntryModel>)
    ensures
        merge_branches(a, b) is Ok <==> merge_branches(b, a) is Ok,
        merge_branches(a, b) matches Ok(t) ==> merge_branches(b, a) == Ok::<
            Seq<BranchEntryModel>,
            MergeErrorModel,
        >(t),
    decreases a.len() + b.len(),
{
    if a.len() == 0 || b.len() == 0 {
        if a.len() == 0 && b.len() == 0 {
            assert(a =~= b);
        }
    } else if branch_key_lt(a[0], b[0]) {
        lemma_merge_branches_commutative(a.subrange(1, a.len() as int), b);
    } else if branch_key_lt(b[0], a[0]) {
        lemma_merge_branches_commutative(a, b.subrange(1, b.len() as int));
    } else {
        lemma_merge_branches_commutative(
            a.subrange(1, a.len() as int),
            b.subrange(1, b.len() as int),
        );
    }
}

/// Two summaries with the same coverage, test name aside.
pub open spec fn summary_equiv_mod_test_name(x: FileSummaryModel, y: FileSummaryModel) -> bool {
    x.lines == y.lines && x.functions == y.functions && x.branches == y.branches
}

/// Two reports with the same coverage of the same paths, test names aside.
pub open spec fn files_equiv_mod_test_name(
    x: Seq<FileEntryModel>,
    y: Seq<FileEntryModel>,
) -> bool {
    x.len() == y.len() && (forall|i: int|
        #![trigger x[i], y[i]]
        0 <= i < x.len() ==> x[i].path == y[i].path && summary_equiv_mod_test_name(
            x[i].summary,
            y[i].summary,
        ))
}

/// Merging reports is commutative in the record set: both orders succeed
/// or fail together, and on success agree on everything except the
/// test-name tie-break, where the left side wins.
pub proof fn lemma_merge_commutative(a: Seq<FileEntryModel>, b: Seq<FileEntryModel>)
    ensures
        merge_files_model(a, b) is Ok <==> merge_files_model(b, a) is Ok,
        merge_files_model(a, b) is Ok ==> files_equiv_mod_test_name(
            merge_files_model(a, b)->Ok_0,
            merge_files_model(b, a)->Ok_0,
        ),
    decreases a.len() + b.len(),
{
    if a.len() == 0 || b.len() == 0 {
        if let Ok(x) = merge_files_model(a, b) {
            if let Ok(y) = merge_files_model(b, a) {
                assert(x == y);
                assert(files_equiv_mod_test_name(x, y));
            }
        }
    } else if lex_lt(a[0].path, b[0].path) {
        lemma_lex_trichotomy(a[0].path, b[0].path);
        lemma_merge_commutative(a.subrange(1, a.len() as int), b);
        if let Ok(x) = merge_files_model(a, b) {
            if let Ok(y) = merge_files_model(b, a) {
                let xt = merge_files_model(a.subrange(1, a.len() as int), b)->Ok_0;
                let yt = merge_files_model(b, a.subrange(1, a.len() as int))->Ok_0;
                assert(x == seq![a[0]] + xt);
                assert(y == seq![a[0]] + yt);
                assert forall|i: int|
                    #![trigger x[i], y[i]]
                    0 <= i < x.len() implies x[i].path == y[i].path
                    && summary_equiv_mod_test_name(x[i].summary, y[i].summary) by {
                    if i > 0 {
                        assert(x[i] == xt[i - 1] && y[i] == yt[i - 1]);
                        assert(xt[i - 1].path == yt[i - 1].path && summary_equiv_mod_test_name(
                            xt[i - 1].summary,
                            yt[i - 1].summary,
                        ));
                    }
                }
            }
        }
    } else if lex_lt(b[0].path, a[0].path) {
        lemma_lex_trichotomy(a[0].path, b[0].path);
        lemma_merge_commutative(a, b.subrange(1, b.len() as int));
        if let Ok(x) = merge_files_model(a, b) {
            if let Ok(y) = merge_files_model(b, a) {
                let xt = merge_files_model(a, b.subrange(1, b.len() as int))->Ok_0;
                let yt = merge_files_model(b.subrange(1, b.len() as int), a)->Ok_0;
                assert(x == seq![b[0]] + xt);
                assert(y == seq![b[0]] + yt);
                assert forall|i: int|
                    #![trigger x[i], y[i]]
                    0 <= i < x.len() implies x[i].path == y[i].path
                    && summary_equiv_mod_test_name(x[i].summary, y[i].summary) by {
                    if i > 0 {
                        assert(x[i] == xt[i - 1] && y[i] == yt[i - 1]);
                        assert(xt[i - 1].path == yt[i - 1].path && summary_equiv_mod_test_name(
                            xt[i - 1].summary,
                            yt[i - 1].summary,
                        ));
                    }
                }
            }
        }
    } else {
        lemma_lex_trichotomy(a[0].path, b[0].path);
        assert(a[0].path == b[0].path);
        lemma_merge_lines_commutative(a[0].summary.lines, b[0].summary.lines, a[0].path);
        lemma_merge_functions_commutative(
            a[0].summary.functions,
            b[0].summary.functions,
            a[0].path,
        );
        lemma_merge_branches_commutative(a[0].summary.branches, b[0].summary.branches);
        lemma_merge_commutative(
            a.subrange(1, a.len() as int),
            b.subrange(1, b.len() as int),
        );
        if let Ok(x) = merge_files_model(a, b) {
            if let Ok(y) = merge_files_model(b, a) {
                let sx = merge_summary(a[0].summary, b[0].summary, a[0].path)->Ok_0;
                let sy = merge_summary(b[0].summary, a[0].summary, b[0].path)->Ok_0;
                let xt = merge_files_model(
                    a.subrange(1, a.len() as int),
                    b.subrange(1, b.len() as int),
                )->Ok_0;
                let yt = merge_files_model(
                    b.subrange(1, b.len() as int),
                    a.subrange(1, a.len() as int),
                )->Ok_0;
                assert(x == seq![FileEntryModel { path: a[0].path, summary: sx }] + xt);
                assert(y == seq![FileEntryModel { path: b[0].path, summary: sy }] + yt);
                assert(summary_equiv_mod_test_name(sx, sy));
                assert forall|i: int|
                    #![trigger x[i], y[i]]
                    0 <= i < x.len() implies x[i].path == y[i].path
                    && summary_equiv_mod_test_name(x[i].summary, y[i].summary) by {
                    if i > 0 {
                        assert(x[i] == xt[i - 1] && y[i] == yt[i - 1]);
                        assert(xt[i - 1].path == yt[i - 1].path && summary_equiv_mod_test_name(
                            xt[i - 1].summary,
                            yt[i - 1].summary,
                        ));
                    }
                }
            }
        }
    }
}

/// The per-entry combiners are associative, error cases included: adding
/// three counts, or combining three taken counts, or reconciling three
/// checksums, gives the same outcome whichever two are combined first.
pub proof fn lemma_combine_associative(
    a: Option<u64>,
    b: Option<u64>,
    c: Option<u64>,
    x: u64,
    y: u64,
    z: u64,
    ca: Option<Seq<char>>,
    cb: Option<Seq<char>>,
    cc: Option<Seq<char>>,
)
    ensures
        (match combine_taken(a, b) {
            Ok(t) => combine_taken(t, c),
            Err(e) => Err(e),
        }) == (match combine_taken(b, c) {
            Ok(t) => combine_taken(a, t),
            Err(e) => Err(e),
        }),
        (match add_counts(x, y) {
            Ok(t) => add_counts(t, z),
            Err(e) => Err(e),
        }) == (match add_counts(y, z) {
            Ok(t) => add_counts(x, t),
            Err(e) => Err(e),
        }),
        (match reconcile_checksum(ca, cb) {
            Ok(t) => reconcile_checksum(t, cc),
            Err(e) => Err(e),
        }) is Ok <==> (match reconcile_checksum(cb, cc) {
            Ok(t) => reconcile_checksum(ca, t),
            Err(e) => Err(e),
        }) is Ok,
        (match reconcile_checksum(ca, cb) {
            Ok(t) => reconcile_checksum(t, cc),
            Err(e) => Err(e),
        }) is Ok ==> (match reconcile_checksum(ca, cb) {
            Ok(t) => reconcile_checksum(t, cc),
            Err(e) => Err(e),
        })->Ok_0 == (match reconcile_checksum(cb, cc) {
            Ok(t) => reconcile_checksum(ca, t),
            Err(e) => Err(e),
        })->Ok_0,
{
}

/// One step of the round trip through emission: when a well-formed line
/// map has been rebuilt up to position `k`, ingesting its `k`-th entry as
/// a `DA` record extends the rebuilt map by exactly that entry, touching
/// nothing else. Emitted line records arrive in increasing line order, so
/// each lands as a fresh entry with its count and checksum kept verbatim.
pub proof fn lemma_line_round_trip_step(
    lines: Seq<LineEntryModel>,
    acc: FileSummaryModel,
    k: int,
    path: Seq<char>,
)
    requires
        forall|i: int, j: int|
            #![trigger lines[i], lines[j]]
            0 <= i < j < lines.len() ==> lines[i].line < lines[j].line,
        forall|i: int|
            #![trigger lines[i]]
            0 <= i < lines.len() ==> (lines[i].checksum matches Some(c) ==> c.len() > 0),
        0 <= k < lines.len(),
        acc.lines == lines.subrange(0, k),
    ensures
        line_step(acc, path, lines[k].line, lines[k].count, lines[k].checksum) == Ok::<
            FileSummaryModel,
            MergeErrorModel,
        >(
            (FileSummaryModel {
                test_name: acc.test_name,
                lines: lines.subrange(0, k + 1),
                functions: acc.functions,
                branches: acc.branches,
            }),
        ),
{
    let target = lines[k].line;
    lemma_seq_find(acc.lines, line_eq_p(target));
    lemma_seq_span(acc.lines, line_lt_p(target));
    assert forall|j: int| 0 <= j < k implies acc.lines[j] == lines[j] && lines[j].line
        < target by {
        assert(lines.subrange(0, k)[j] == lines[j]);
    }
    if let Some(w) = seq_find(acc.lines, line_eq_p(target)) {
        assert(acc.lines[w].line == target);
        assert(lines[w].line < target);
        assert(false);
    }
    let pos = seq_span(acc.lines, line_lt_p(target));
    if pos < k {
        assert(!line_lt_p(target)(acc.lines[pos]));
        assert(lines[pos].line < target);
        assert(false);
    }
    if pos > k {
        assert(line_lt_p(target)(acc.lines[k]));
    }
    assert(pos == k);
    assert(norm_checksum(lines[k].checksum) == lines[k].checksum);
    assert(acc.lines.insert(
        k,
        LineEntryModel {
            line: lines[k].line,
            count: lines[k].count,
            checksum: lines[k].checksum,
        },
    ) =~= lines.subrange(0, k + 1));
}

/// One accumulation step preserves the well-formed shape of the report.
pub proof fn lemma_acc_step_wf(st: AccModel, r: RecordModel)
    requires
        wf_report(st.files),
    ensures
        acc_step(st, r) matches Ok(st2) ==> wf_report(st2.files),
{
    lemma_open_scope_wf(st, Seq::<char>::empty());
    match r {
        RecordModel::TestName { name } => {
            if let Some(path) = st.current {
                lemma_seq_find(st.files, path_eq_p(path));
            }
        },
        RecordModel::SourceFile { path } => {
            lemma_open_scope_wf(st, path);
        },
        RecordModel::FunctionName { name, start_line } => {
            let st2 = ensure_scope(st);
            let path = st2.current.unwrap();
            lemma_seq_find(st2.files, path_eq_p(path));
            if let Some(i) = seq_find(st2.files, path_eq_p(path)) {
                lemma_fn_name_step_wf(st2.files[i].summary, name, start_line);
            }
        },
        RecordModel::FunctionData { name, count } => {
            let st2 = ensure_scope(st);
            let path = st2.current.unwrap();
            lemma_seq_find(st2.files, path_eq_p(path));
            if let Some(i) = seq_find(st2.files, path_eq_p(path)) {
                lemma_fn_data_step_wf(st2.files[i].summary, name, count);
            }
        },
        RecordModel::LineData { line, count, checksum } => {
            let st2 = ensure_scope(st);
            let path = st2.current.unwrap();
            lemma_seq_find(st2.files, path_eq_p(path));
            if let Some(i) = seq_find(st2.files, path_eq_p(path)) {
                lemma_line_step_wf(st2.files[i].summary, path, line, count, checksum);
            }
        },
        RecordModel::BranchData { line, block, branch, taken } => {
            let st2 = ensure_scope(st);
            let path = st2.current.unwrap();
            lemma_seq_find(st2.files, path_eq_p(path));
            if let Some(i) = seq_find(st2.files, path_eq_p(path)) {
                lemma_branch_step_wf(
                    st2.files[i].summary,
                    BranchEntryModel { line, block, branch, taken },
                );
            }
        },
        _ => {},
    }
}

} // verus!
