//! The reader: a pull-based driver that turns a list of input lines into a
//! finite stream of records, parsing each non-blank line, numbering lines
//! from one, and applying an optional line filter with the per-scope
//! bookkeeping that drops an `FNDA` whose `FN` was dropped.

use crate::line_filter::LineFilter;
use crate::record::ParseErrorModel;
use crate::record::ParseRecordError;
use crate::record::Record;
use crate::record::RecordModel;
use crate::record::spec_parse;
use vstd::prelude::*;

verus! {

/// The spec-level values of a vector of text lines.
pub open spec fn texts_model(v: Seq<String>) -> Seq<Seq<char>> {
    Seq::new(v.len(), |i: int| v[i]@)
}

/// An error produced while reading a record stream.
#[derive(Debug, Clone, PartialEq, Eq)]
pub enum ReadError {
    /// The underlying input failed while reading the numbered line; the
    /// reader itself never produces this, it exists for callers that feed
    /// lines from a fallible source.
    Io {
        /// Description of the input failure.
        cause: String,
        /// 1-based number of the line being read.
        line: usize,
    },
    /// One line failed the record grammar.
    Parse {
        /// The grammar error.
        error: ParseRecordError,
        /// 1-based number of the offending line.
        line: usize,
        /// The offending line's text.
        raw: String,
    },
}

/// Spec-level value of a [`ReadError`].
pub enum ReadErrorModel {
    Io { cause: Seq<char>, line: usize },
    Parse { error: ParseErrorModel, line: usize, raw: Seq<char> },
}

impl View for ReadError {
    type V = ReadErrorModel;

    open spec fn view(&self) -> ReadErrorModel {
        match self {
            ReadError::Io { cause, line } => ReadErrorModel::Io { cause: cause@, line: *line },
            ReadError::Parse { error, line, raw } => ReadErrorModel::Parse {
                error: error@,
                line: *line,
                raw: raw@,
            },
        }
    }
}

/// One emitted item of a reader, at the spec level.
pub open spec fn item_model(it: Result<Record, ReadError>) -> Result<RecordModel, ReadErrorModel> {
    match it {
        Ok(r) => Ok(r@),
        Err(e) => Err(e@),
    }
}

/// A trailing carriage return is stripped before parsing.
pub open spec fn strip_cr(l: Seq<char>) -> Seq<char> {
    if l.len() > 0 && l.last() == '\r' {
        l.drop_last()
    } else {
        l
    }
}

/// Whether a record of this shape is emitted: without a filter everything
/// is, with one the line policy of [`LineFilter::spec_keeps`] applies, and
/// an `FNDA` is kept only when an `FN` of the same name was kept in the
/// current file scope.
pub open spec fn keeps(
    filter: Option<LineFilter>,
    kept: Seq<Seq<char>>,
    rm: RecordModel,
) -> bool {
    match filter {
        None => true,
        Some(f) => match rm {
            RecordModel::FunctionData { name, .. } => kept.contains(name),
            _ => f.spec_keeps(rm),
        },
    }
}

/// The kept function names of the scope after seeing `rm`: cleared at
/// `end_of_record`, extended by a kept `FN`, otherwise unchanged.
pub open spec fn scope_after(
    filter: Option<LineFilter>,
    kept: Seq<Seq<char>>,
    rm: RecordModel,
) -> Seq<Seq<char>> {
    match rm {
        RecordModel::EndOfRecord => Seq::<Seq<char>>::empty(),
        RecordModel::FunctionName { name, .. } => if keeps(filter, kept, rm) {
            kept.push(name)
        } else {
            kept
        },
        _ => kept,
    }
}

/// Everything a reader in this state will still emit: blank lines are
/// skipped, a line that fails the grammar is one error item, a parsed
/// record is emitted exactly when the filter keeps it.
pub open spec fn remaining_output(
    lines: Seq<Seq<char>>,
    pos: int,
    filter: Option<LineFilter>,
    kept: Seq<Seq<char>>,
) -> Seq<Result<RecordModel, ReadErrorModel>>
    decreases lines.len() - pos,
{
    if pos < 0 || pos >= lines.len() {
        Seq::<Result<RecordModel, ReadErrorModel>>::empty()
    } else {
        let l = strip_cr(lines[pos]);
        if l.len() == 0 {
            remaining_output(lines, pos + 1, filter, kept)
        } else {
            match spec_parse(l) {
                Err(e) => seq![
                    Err::<RecordModel, ReadErrorModel>(
                        ReadErrorModel::Parse {
                            error: e,
                            line: (pos + 1) as usize,
                            raw: l,
                        },
                    )
                ] + remaining_output(lines, pos + 1, filter, kept),
                Ok(rm) => if keeps(filter, kept, rm) {
                    seq![Ok::<RecordModel, ReadErrorModel>(rm)] + remaining_output(
                        lines,
                        pos + 1,
                        filter,
                        scope_after(filter, kept, rm),
                    )
                } else {
                    remaining_output(lines, pos + 1, filter, scope_after(filter, kept, rm))
                },
            }
        }
    }
}

/// A filter `g` whose coverage includes `f`'s keeps every record `f`
/// keeps, provided the kept function names seen under `f` are also kept
/// under `g`: filtering is monotone in the filter, record by record.
pub proof fn lemma_keeps_monotone(
    f: LineFilter,
    g: LineFilter,
    kf: Seq<Seq<char>>,
    kg: Seq<Seq<char>>,
    rm: RecordModel,
)
    requires
        forall|l: int| f.spec_covers(l) ==> g.spec_covers(l),
        forall|n: Seq<char>| kf.contains(n) ==> kg.contains(n),
    ensures
        keeps(Some(f), kf, rm) ==> keeps(Some(g), kg, rm),
{
    match rm {
        RecordModel::FunctionData { name, .. } => {
            if kf.contains(name) {
                assert(kg.contains(name));
            }
        },
        _ => {},
    }
}

/// A restartable, single-pass reader over a list of input lines. Its
/// output is a pure function of the lines and the filter, as
/// [`remaining_output`] says.
#[derive(Debug)]
pub struct Reader {
    /// The input lines, without their newlines.
    pub lines: Vec<String>,
    /// The optional line filter.
    pub filter: Option<LineFilter>,
    /// Position of the next line to read (0-based).
    pub pos: usize,
    /// Names of the `FN` records kept in the current file scope.
    pub kept: Vec<String>,
}

/// Whether a vector of names holds `name`.
fn contains_text(v: &Vec<String>, name: &String) -> (r: bool)
    ensures
        r == texts_model(v@).contains(name@),
{
    let n: usize = v.len();
    let mut i: usize = 0;
    while i < n
        invariant
            n == v@.len(),
            0 <= i <= n,
            forall|j: int| 0 <= j < i ==> texts_model(v@)[j] != name@,
        decreases n - i,
    {
        if v[i].eq(name) {
            proof {
                assert(texts_model(v@)[i as int] == name@);
            }
            return true;
        }
        i += 1;
    }
    proof {
        assert(forall|j: int| 0 <= j < texts_model(v@).len() ==> texts_model(v@)[j] != name@);
    }
    false
}

impl Reader {
    /// The reader's structural invariant: the position is in range and the
    /// filter, if any, is normalized.
    pub open spec fn wf(&self) -> bool {
        self.pos <= self.lines@.len() && match self.filter {
            Some(f) => f.wf(),
            None => true,
        }
    }

    /// Everything this reader will still emit.
    pub open spec fn remaining(&self) -> Seq<Result<RecordModel, ReadErrorModel>> {
        remaining_output(
            texts_model(self.lines@),
            self.pos as int,
            self.filter,
            texts_model(self.kept@),
        )
    }

    /// A fresh reader over `lines`, optionally restricted by `filter`.
    pub fn new(lines: Vec<String>, filter: Option<LineFilter>) -> (r: Reader)
        requires
            (filter matches Some(f) ==> f.wf()),
        ensures
            r.wf(),
            r.lines == lines,
            r.filter == filter,
            r.pos == 0,
            r.remaining() == remaining_output(
                texts_model(lines@),
                0,
                filter,
                Seq::<Seq<char>>::empty(),
            ),
    {
        let r = Reader { lines, filter, pos: 0, kept: Vec::new() };
        proof {
            assert(texts_model(r.kept@) =~= Seq::<Seq<char>>::empty());
        }
        r
    }

    /// The next emitted item: the record of the next non-blank line the
    /// filter keeps, or the error of the next malformed line; `None` at
    /// end of input. Exactly the head of [`Reader::remaining`].
    pub fn next(&mut self) -> (r: Option<Result<Record, ReadError>>)
        requires
            old(self).wf(),
        ensures
            final(self).wf(),
            final(self).lines == old(self).lines,
            final(self).filter == old(self).filter,
            match r {
                None => old(self).remaining() == Seq::<
                    Result<RecordModel, ReadErrorModel>,
                >::empty(),
                Some(item) => old(self).remaining() == seq![item_model(item)]
                    + final(self).remaining(),
            },
    {
        let n: usize = self.lines.len();
        while self.pos < n
            invariant
                self.wf(),
                n == self.lines@.len(),
                self.lines == old(self).lines,
                self.filter == old(self).filter,
                old(self).remaining() == self.remaining(),
            decreases n - self.pos,
        {
            let ghost lv = texts_model(self.lines@);
            let ghost kv = texts_model(self.kept@);
            let ghost p = self.pos as int;
            let raw = &self.lines[self.pos];
            let rl = raw.as_str();
            let len: usize = rl.unicode_len();
            let stripped: &str = if len > 0 && rl.get_char(len - 1) == '\r' {
                rl.substring_char(0, len - 1)
            } else {
                rl
            };
            proof {
                assert(lv[p] == raw@);
                if len > 0 && raw@.last() == '\r' {
                    assert(raw@.subrange(0, len - 1) =~= raw@.drop_last());
                }
                assert(stripped@ == strip_cr(lv[p]));
            }
            if stripped.unicode_len() == 0 {
                self.pos += 1;
                continue ;
            }
            match Record::parse(stripped) {
                Err(e) => {
                    let item = ReadError::Parse {
                        error: e,
                        line: self.pos + 1,
                        raw: stripped.to_owned(),
                    };
                    self.pos += 1;
                    return Some(Err(item));
                },
                Ok(rec) => {
                    let keep: bool = match &self.filter {
                        None => true,
                        Some(f) => match &rec {
                            Record::FunctionData { name, .. } => contains_text(&self.kept, name),
                            Record::FunctionName { start_line, .. } => f.contains(*start_line),
                            Record::LineData { line, .. } => f.contains(*line),
                            Record::BranchData { line, .. } => f.contains(*line),
                            _ => true,
                        },
                    };
                    proof {
                        assert(keep == keeps(self.filter, kv, rec@));
                    }
                    match &rec {
                        Record::EndOfRecord => {
                            self.kept = Vec::new();
                            proof {
                                assert(texts_model(self.kept@) =~= Seq::<Seq<char>>::empty());
                            }
                        },
                        Record::FunctionName { name, .. } => {
                            if keep {
                                self.kept.push(name.clone());
                                proof {
                                    assert(texts_model(self.kept@) =~= kv.push(name@));
                                }
                            }
                        },
                        _ => {},
                    }
                    proof {
                        assert(texts_model(self.kept@) == scope_after(self.filter, kv, rec@));
                    }
                    self.pos += 1;
                    if keep {
                        return Some(Ok(rec));
                    }
                },
            }
        }
        None
    }
}

} // verus!
