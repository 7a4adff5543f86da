//! A line filter: a normalized set of inclusive line ranges, used to keep
//! only the records that speak of a chosen subset of source lines.

use crate::record::Record;
use crate::record::RecordModel;
use vstd::prelude::*;

verus! {

/// A closed interval of 1-based line numbers. `lo == hi` is a single line;
/// an interval with `lo > hi` holds no line at all.
#[derive(Debug, Copy, Clone, PartialEq, Eq, Structural)]
pub struct LineRange {
    /// First line of the range.
    pub lo: u32,
    /// Last line of the range.
    pub hi: u32,
}

/// Whether line `l` lies in the range `r`.
pub open spec fn in_range(r: LineRange, l: int) -> bool {
    r.lo as int <= l && l <= r.hi as int
}

/// Whether line `l` lies in some range of `rs`.
pub open spec fn covers_seq(rs: Seq<LineRange>, l: int) -> bool {
    exists|i: int| 0 <= i < rs.len() && in_range(rs[i], l)
}

/// The normalized shape of a filter: every range non-empty, and ranges
/// strictly ordered with at least one uncovered line between any two.
pub open spec fn wf_ranges(rs: Seq<LineRange>) -> bool {
    (forall|i: int| 0 <= i < rs.len() ==> rs[i].lo <= rs[i].hi) && (forall|i: int, j: int|
        0 <= i < j < rs.len() ==> rs[i].hi as int + 1 < rs[j].lo as int)
}

/// A predicate over line numbers, stored as sorted, disjoint,
/// non-touching inclusive ranges.
#[derive(Debug, Clone, PartialEq, Eq)]
pub struct LineFilter {
    /// The normalized ranges; [`LineFilter::wf`] states their shape, and
    /// every operation that reads them requires it.
    pub ranges: Vec<LineRange>,
}

/// Insert one non-empty range into a normalized range vector, merging
/// every range that overlaps or touches it.
#[verifier::rlimit(60)]
fn insert_range(v: &Vec<LineRange>, r: LineRange) -> (out: Vec<LineRange>)
    requires
        wf_ranges(v@),
        r.lo <= r.hi,
    ensures
        wf_ranges(out@),
        forall|l: int| #![trigger covers_seq(out@, l)]
            covers_seq(out@, l) <==> covers_seq(v@, l) || in_range(r, l),
{
    let n: usize = v.len();
    let mut out: Vec<LineRange> = Vec::new();
    let mut i: usize = 0;
    while i < n && (v[i].hi as u64) + 1 < (r.lo as u64)
        invariant
            wf_ranges(v@),
            r.lo <= r.hi,
            n == v@.len(),
            0 <= i <= n,
            out@ =~= v@.subrange(0, i as int),
            forall|j: int| 0 <= j < i ==> v@[j].hi as int + 1 < r.lo as int,
        decreases n - i,
    {
        out.push(v[i]);
        i += 1;
    }
    let ghost m = i as int;
    let mut lo: u32 = r.lo;
    let mut hi: u32 = r.hi;
    while i < n && (v[i].lo as u64) <= (hi as u64) + 1
        invariant
            wf_ranges(v@),
            r.lo <= r.hi,
            n == v@.len(),
            0 <= m <= i <= n,
            lo <= r.lo,
            r.hi <= hi,
            lo <= hi,
            m < n ==> v@[m].hi as int + 1 >= r.lo as int,
            lo == if m < i && v@[m].lo < r.lo {
                v@[m].lo
            } else {
                r.lo
            },
            forall|l: int|
                (lo as int <= l && l <= hi as int) <==> (in_range(r, l) || covers_seq(
                    v@.subrange(m, i as int),
                    l,
                )),
        decreases n - i,
    {
        let ghost prev = v@.subrange(m, i as int);
        let ghost lo0 = lo;
        let ghost hi0 = hi;
        if v[i].lo < lo {
            lo = v[i].lo;
        }
        if v[i].hi > hi {
            hi = v[i].hi;
        }
        i += 1;
        proof {
            let cur = v@.subrange(m, i as int);
            assert(cur =~= prev.push(v@[i - 1]));
            assert(v@[i - 1].hi as int >= lo0 as int - 1) by {
                if m < i - 1 {
                    assert(v@[m].lo <= v@[m].hi);
                    assert(v@[m].hi as int + 1 < v@[i - 1].lo as int);
                    assert(v@[i - 1].lo <= v@[i - 1].hi);
                }
            }
            assert forall|l: int| (lo as int <= l && l <= hi as int) <==> (in_range(r, l)
                || covers_seq(cur, l)) by {
                if in_range(v@[i - 1], l) {
                    assert(covers_seq(cur, l)) by {
                        assert(cur[cur.len() - 1] == v@[i - 1]);
                    }
                }
                if covers_seq(prev, l) {
                    let w = choose|w: int| 0 <= w < prev.len() && in_range(prev[w], l);
                    assert(cur[w] == prev[w]);
                }
                if covers_seq(cur, l) {
                    let w = choose|w: int| 0 <= w < cur.len() && in_range(cur[w], l);
                    if w < cur.len() - 1 {
                        assert(prev[w] == cur[w]);
                    }
                }
            }
        }
    }
    let ghost p = i as int;
    proof {
        assert forall|j: int| p <= j < n implies v@[j].lo as int > hi as int + 1 by {
            if j > p {
                assert(v@[p].hi as int + 1 < v@[j].lo as int);
                assert(v@[p].lo <= v@[p].hi);
            }
        }
    }
    let merged = LineRange { lo, hi };
    out.push(merged);
    let ghost before = out@;
    let mut k: usize = i;
    while k < n
        invariant
            wf_ranges(v@),
            n == v@.len(),
            0 <= m <= p <= k <= n,
            before.len() == m + 1,
            out@ =~= before + v@.subrange(p, k as int),
            forall|j: int| 0 <= j < m ==> before[j] == v@[j],
            before[m as int] == merged,
            merged.lo == lo && merged.hi == hi && lo <= hi,
            forall|j: int| 0 <= j < m ==> v@[j].hi as int + 1 < lo as int,
            forall|j: int| p <= j < n ==> v@[j].lo as int > hi as int + 1,
        decreases n - k,
    {
        out.push(v[k]);
        k += 1;
    }
    proof {
        assert forall|a: int| 0 <= a < out@.len() implies out@[a].lo <= out@[a].hi by {
            if a < m {
                assert(out@[a] == v@[a]);
            } else if a > m {
                assert(out@[a] == v@[p + (a - m - 1)]);
            }
        }
        assert forall|a: int, b: int| 0 <= a < b < out@.len() implies out@[a].hi as int + 1
            < out@[b].lo as int by {
            if a < m && b < m {
            } else if a < m && b == m {
                assert(out@[a] == v@[a]);
            } else if a < m && b > m {
                assert(out@[a] == v@[a]);
                assert(out@[b] == v@[p + (b - m - 1)]);
                assert(v@[a].hi as int + 1 < v@[p + (b - m - 1)].lo as int);
            } else if a == m {
                assert(out@[b] == v@[p + (b - m - 1)]);
            } else {
                assert(out@[a] == v@[p + (a - m - 1)]);
                assert(out@[b] == v@[p + (b - m - 1)]);
            }
        }
        assert forall|l: int| #![trigger covers_seq(out@, l)]
            (covers_seq(out@, l) <==> covers_seq(v@, l) || in_range(r, l)) by {
            if covers_seq(out@, l) {
                let w = choose|w: int| 0 <= w < out@.len() && in_range(out@[w], l);
                if w < m {
                    assert(out@[w] == v@[w]);
                } else if w == m {
                    assert(in_range(merged, l));
                    if !in_range(r, l) {
                        let u = choose|u: int|
                            0 <= u < v@.subrange(m, p).len() && in_range(v@.subrange(m, p)[u], l);
                        assert(v@[m + u] == v@.subrange(m, p)[u]);
                    }
                } else {
                    assert(out@[w] == v@[p + (w - m - 1)]);
                }
            }
            if in_range(r, l) {
                assert(in_range(merged, l));
                assert(out@[m as int] == merged);
            }
            if covers_seq(v@, l) {
                let w = choose|w: int| 0 <= w < v@.len() && in_range(v@[w], l);
                if w < m {
                    assert(out@[w] == v@[w]);
                } else if w < p {
                    assert(v@.subrange(m, p)[w - m] == v@[w]);
                    assert(covers_seq(v@.subrange(m, p), l));
                    assert(in_range(merged, l));
                    assert(out@[m as int] == merged);
                } else {
                    assert(out@[m + 1 + (w - p)] == v@[w]);
                }
            }
        }
    }
    out
}

impl LineFilter {
    /// The normalized shape invariant of this filter.
    pub open spec fn wf(&self) -> bool {
        wf_ranges(self.ranges@)
    }

    /// Whether this filter covers line `l`, at the spec level.
    pub open spec fn spec_covers(&self, l: int) -> bool {
        covers_seq(self.ranges@, l)
    }

    /// The normalized ranges of this filter.
    pub open spec fn spec_ranges(&self) -> Seq<LineRange> {
        self.ranges@
    }

    /// Build a filter from any list of ranges: empty ranges are dropped,
    /// the rest are sorted and merged. The result covers exactly the lines
    /// some input range covers.
    pub fn from_ranges(ranges: &Vec<LineRange>) -> (f: LineFilter)
        ensures
            f.wf(),
            forall|l: int| #![trigger f.spec_covers(l)]
                f.spec_covers(l) <==> exists|i: int|
                    0 <= i < ranges@.len() && in_range(ranges@[i], l),
    {
        let n: usize = ranges.len();
        let mut v: Vec<LineRange> = Vec::new();
        let mut i: usize = 0;
        while i < n
            invariant
                n == ranges@.len(),
                0 <= i <= n,
                wf_ranges(v@),
                forall|l: int| #![trigger covers_seq(v@, l)]
                    covers_seq(v@, l) <==> exists|j: int|
                        0 <= j < i && in_range(ranges@[j], l),
            decreases n - i,
        {
            let ghost prev = v@;
            let r = ranges[i];
            if r.lo <= r.hi {
                v = insert_range(&v, r);
            }
            i += 1;
            proof {
                assert forall|l: int| #![trigger covers_seq(v@, l)]
                    covers_seq(v@, l) <==> exists|j: int|
                    0 <= j < i && in_range(ranges@[j], l) by {
                    if covers_seq(v@, l) {
                        if covers_seq(prev, l) {
                            let j = choose|j: int| 0 <= j < i - 1 && in_range(ranges@[j], l);
                            assert(0 <= j < i && in_range(ranges@[j], l));
                        } else {
                            assert(in_range(ranges@[i - 1], l));
                        }
                    }
                    if exists|j: int| 0 <= j < i && in_range(ranges@[j], l) {
                        let j = choose|j: int| 0 <= j < i && in_range(ranges@[j], l);
                        assert(ranges@[i - 1] == r);
                        if j < i - 1 {
                            assert(covers_seq(prev, l));
                            assert(covers_seq(v@, l));
                        } else {
                            assert(in_range(r, l));
                            assert(covers_seq(v@, l));
                        }
                    }
                }
            }
        }
        LineFilter { ranges: v }
    }

    /// Whether this filter covers line `line`, by binary search on the
    /// sorted range starts.
    pub fn contains(&self, line: u32) -> (r: bool)
        requires
            self.wf(),
        ensures
            r == self.spec_covers(line as int),
    {
        let n: usize = self.ranges.len();
        let mut lo_i: usize = 0;
        let mut hi_i: usize = n;
        while lo_i < hi_i
            invariant
                wf_ranges(self.ranges@),
                n == self.ranges@.len(),
                0 <= lo_i <= hi_i <= n,
                forall|j: int| 0 <= j < lo_i ==> self.ranges@[j].lo <= line,
                forall|j: int| hi_i <= j < n ==> self.ranges@[j].lo > line,
            decreases hi_i - lo_i,
        {
            let mid: usize = lo_i + (hi_i - lo_i) / 2;
            if self.ranges[mid].lo <= line {
                proof {
                    assert forall|j: int| 0 <= j < mid + 1 implies self.ranges@[j].lo <= line by {
                        if j < mid {
                            assert(self.ranges@[j].hi as int + 1
                                < self.ranges@[mid as int].lo as int);
                            assert(self.ranges@[j].lo <= self.ranges@[j].hi);
                        }
                    }
                }
                lo_i = mid + 1;
            } else {
                proof {
                    assert forall|j: int| mid <= j < n implies self.ranges@[j].lo > line by {
                        if j > mid {
                            assert(self.ranges@[mid as int].hi as int + 1
                                < self.ranges@[j].lo as int);
                            assert(self.ranges@[mid as int].lo <= self.ranges@[mid as int].hi);
                        }
                    }
                }
                hi_i = mid;
            }
        }
        if lo_i == 0 {
            proof {
                assert forall|j: int| 0 <= j < n implies !in_range(self.ranges@[j], line as int)
                    by {}
            }
            false
        } else {
            let idx: usize = lo_i - 1;
            let r = self.ranges[idx];
            if line <= r.hi {
                proof {
                    assert(in_range(self.ranges@[idx as int], line as int));
                }
                true
            } else {
                proof {
                    assert forall|j: int| 0 <= j < n implies !in_range(
                        self.ranges@[j],
                        line as int,
                    ) by {
                        if j < idx {
                            assert(self.ranges@[j].hi as int + 1
                                < self.ranges@[idx as int].lo as int);
                        }
                    }
                }
                false
            }
        }
    }

    /// Whether a record of this shape is kept by this filter: records
    /// without a line of their own always pass, `FN`, `DA` and `BRDA` pass
    /// exactly when their line is covered. (`FNDA` passes here; whether a
    /// kept `FN` precedes it is scope bookkeeping that the reader does.)
    pub open spec fn spec_keeps(&self, rm: RecordModel) -> bool {
        match rm {
            RecordModel::FunctionName { start_line, .. } => self.spec_covers(start_line as int),
            RecordModel::LineData { line, .. } => self.spec_covers(line as int),
            RecordModel::BranchData { line, .. } => self.spec_covers(line as int),
            _ => true,
        }
    }

    /// Keep or drop one record by the line policy of [`LineFilter::spec_keeps`].
    pub fn apply(&self, record: Record) -> (out: Option<Record>)
        requires
            self.wf(),
        ensures
            match out {
                Some(kept) => self.spec_keeps(record@) && kept == record,
                None => !self.spec_keeps(record@),
            },
    {
        let keep = match &record {
            Record::FunctionName { start_line, .. } => self.contains(*start_line),
            Record::LineData { line, .. } => self.contains(*line),
            Record::BranchData { line, .. } => self.contains(*line),
            _ => true,
        };
        if keep {
            Some(record)
        } else {
            None
        }
    }
}

} // verus!
