//! The codemap of a preprocessed file: provenance segments and the
//! coordinate resolver.

use core::ops::Range;
use vstd::prelude::*;
use crate::directive::{
    BuildError, Directive, scan_directives, scan_error, spec_directives, lemma_all_lines_ok,
    lemma_directives_props, line_seq, directive_value,
};
use crate::line_table::{
    LineSpan, spec_line_table, build_line_table, lemma_line_table_props, line_of, lemma_line_of,
    lemma_line_of_counts_newlines, lemma_lines_ordered, find_line, nl_count,
};

verus! {

/// One slice of the flattened buffer: a maximal contiguous part that shares
/// one filename and one line-number offset.
///
/// The slice owns the flattened bytes `[byte_start, byte_end)` and the
/// flattened lines `[line_start, line_end)`; a directive's own line belongs
/// to the slice that precedes it. Line `line_start + k` of the buffer is
/// line `base + k` of the original file named by the bytes
/// `[name_start, name_end)` of the buffer; an empty name range means no
/// directive has named a file.
#[derive(Clone, Copy, Debug, PartialEq, Eq, Structural)]
pub struct FileSlice {
    pub name_start: usize,
    pub name_end: usize,
    pub byte_start: usize,
    pub byte_end: usize,
    pub line_start: usize,
    pub line_end: usize,
    pub base: usize,
}

/// A failed coordinate query.
#[derive(Clone, Copy, Debug, PartialEq, Eq, Structural)]
pub enum Error {
    /// The byte offset lies before the slice passed to the query.
    FileMissing,
    /// The line index has no line in the table; `max` is the table's
    /// largest valid line index.
    LineTooLarge { given: usize, max: usize },
}

/// The filename current after directive `i`: the latest one declared at or
/// before it, or the empty range when none of the first `i + 1` directives
/// declared one.
pub open spec fn current_name(ds: Seq<Directive>, i: int) -> (usize, usize)
    decreases i + 1,
{
    if i < 0 {
        (0usize, 0usize)
    } else if ds[i].fname is Some {
        ds[i].fname->0
    } else {
        current_name(ds, i - 1)
    }
}

/// The first line index past the lines that segment `i` owns: the next
/// directive's line plus one — the directive's own line still belongs to the
/// segment before it — or the table's end for the last segment.
pub open spec fn seg_line_end(ds: Seq<Directive>, n_lines: int, i: int) -> int {
    if i < ds.len() {
        ds[i].line_index + 1
    } else {
        n_lines
    }
}

/// Byte offset at which line `k` starts, taken as the buffer's length for
/// the index one past the last line.
pub open spec fn line_start_at(buf_len: int, lines: Seq<LineSpan>, k: int) -> int {
    if k < lines.len() {
        lines[k].start as int
    } else {
        buf_len
    }
}

/// Segment `i` of a buffer with directive list `ds`. Segment 0 runs from the
/// buffer's start through the first directive's own line with no name and
/// offset zero; segment `i + 1` starts on the line after directive `i`, runs
/// through the next directive's line or the buffer's end, and carries
/// directive `i`'s base and the filename current at directive `i`. Segment
/// boundaries always fall on line starts.
pub open spec fn spec_segment(
    buf_len: int,
    lines: Seq<LineSpan>,
    ds: Seq<Directive>,
    i: int,
) -> FileSlice {
    let ls = if i == 0 {
        0int
    } else {
        ds[i - 1].line_index + 1
    };
    let le = seg_line_end(ds, lines.len() as int, i);
    let nm = if i == 0 {
        (0usize, 0usize)
    } else {
        current_name(ds, i - 1)
    };
    FileSlice {
        name_start: nm.0,
        name_end: nm.1,
        byte_start: line_start_at(buf_len, lines, ls) as usize,
        byte_end: line_start_at(buf_len, lines, le) as usize,
        line_start: ls as usize,
        line_end: le as usize,
        base: if i == 0 {
            0usize
        } else {
            ds[i - 1].base
        },
    }
}

/// All segments of the buffer, one more than there are directives: they
/// partition the buffer's bytes and lines.
pub open spec fn spec_segments(buf_len: int, lines: Seq<LineSpan>, ds: Seq<Directive>) -> Seq<
    FileSlice,
> {
    Seq::new((ds.len() + 1) as nat, |i: int| spec_segment(buf_len, lines, ds, i))
}

/// Byte offset at which line `k` starts, or the buffer's length one past
/// the table.
fn line_start_of(buf_len: usize, lines: &Vec<LineSpan>, k: usize) -> (r: usize)
    requires
        forall|m: int| 0 <= m < lines@.len() ==> (#[trigger] lines@[m]).start <= buf_len,
    ensures
        r == line_start_at(buf_len as int, lines@, k as int),
{
    if k < lines.len() {
        lines[k].start
    } else {
        buf_len
    }
}

/// Builds the segment list that a directive list induces.
pub(crate) fn build_slices(buf_len: usize, lines: &Vec<LineSpan>, ds: &Vec<Directive>) -> (r: Vec<
    FileSlice,
>)
    requires
        lines@.len() >= 1,
        forall|m: int| 0 <= m < lines@.len() ==> (#[trigger] lines@[m]).start <= buf_len,
        forall|i: int| 0 <= i < ds@.len() ==> (#[trigger] ds@[i]).line_index < lines@.len(),
    ensures
        r@ == spec_segments(buf_len as int, lines@, ds@),
{
    let n = ds.len();
    let n_lines = lines.len();
    let mut out: Vec<FileSlice> = Vec::new();
    let first_end = if n > 0 {
        ds[0].line_index + 1
    } else {
        n_lines
    };
    out.push(
        FileSlice {
            name_start: 0,
            name_end: 0,
            byte_start: line_start_of(buf_len, lines, 0),
            byte_end: line_start_of(buf_len, lines, first_end),
            line_start: 0,
            line_end: first_end,
            base: 0,
        },
    );
    let mut cur_ns: usize = 0;
    let mut cur_ne: usize = 0;
    let mut i: usize = 0;
    while i < n
        invariant
            n == ds@.len(),
            n_lines == lines@.len() >= 1,
            i <= n,
            forall|m: int| 0 <= m < lines@.len() ==> (#[trigger] lines@[m]).start <= buf_len,
            forall|k: int| 0 <= k < ds@.len() ==> (#[trigger] ds@[k]).line_index < lines@.len(),
            out@.len() == i + 1,
            forall|k: int|
                0 <= k <= i ==> out@[k] == spec_segment(buf_len as int, lines@, ds@, k),
            (cur_ns, cur_ne) == current_name(ds@, i - 1),
        decreases n - i,
    {
        let d = ds[i];
        match d.fname {
            Option::Some(p) => {
                cur_ns = p.0;
                cur_ne = p.1;
            },
            Option::None => {},
        }
        let ls = d.line_index + 1;
        let le = if i + 1 < n {
            ds[i + 1].line_index + 1
        } else {
            n_lines
        };
        out.push(
            FileSlice {
                name_start: cur_ns,
                name_end: cur_ne,
                byte_start: line_start_of(buf_len, lines, ls),
                byte_end: line_start_of(buf_len, lines, le),
                line_start: ls,
                line_end: le,
                base: d.base,
            },
        );
        i = i + 1;
    }
    proof {
        assert(out@ =~= spec_segments(buf_len as int, lines@, ds@));
    }
    out
}

/// The filename current at any directive stays a valid byte range.
proof fn lemma_current_name_valid(ds: Seq<Directive>, i: int, buf_len: int)
    requires
        i < ds.len(),
        forall|k: int|
            0 <= k < ds.len() ==> match (#[trigger] ds[k]).fname {
                Option::None => true,
                Option::Some(x) => x.0 <= x.1 <= buf_len,
            },
        0 <= buf_len,
    ensures
        current_name(ds, i).0 <= current_name(ds, i).1 <= buf_len,
    decreases i + 1,
{
    if i >= 0 && ds[i].fname is None {
        lemma_current_name_valid(ds, i - 1, buf_len);
    }
}

/// Line starts never decrease along the table, counting the position one
/// past the table as the buffer's end.
proof fn lemma_line_start_mono(buf_len: int, lines: Seq<LineSpan>, k: int, l: int)
    requires
        forall|m: int|
            0 <= m < lines.len() ==> (#[trigger] lines[m]).start <= lines[m].end <= buf_len,
        forall|m: int|
            0 <= m < lines.len() - 1 ==> (#[trigger] lines[m]).end + 1 == lines[m + 1].start,
        0 <= k <= l <= lines.len(),
    ensures
        line_start_at(buf_len, lines, k) <= line_start_at(buf_len, lines, l),
{
    if l < lines.len() && k < l {
        lemma_lines_ordered(lines, k, l);
    }
}

/// Each line starts no earlier than its index: every line before it takes at
/// least one byte.
proof fn lemma_line_start_ge_index(lines: Seq<LineSpan>, k: int)
    requires
        forall|m: int| 0 <= m < lines.len() ==> (#[trigger] lines[m]).start <= lines[m].end,
        forall|m: int|
            0 <= m < lines.len() - 1 ==> (#[trigger] lines[m]).end + 1 == lines[m + 1].start,
        lines.len() >= 1,
        lines[0].start == 0,
        0 <= k < lines.len(),
    ensures
        lines[k].start >= k,
    decreases k,
{
    if k > 0 {
        lemma_line_start_ge_index(lines, k - 1);
    }
}

/// The structural facts of a segment list built from a line table and an
/// accepted directive list: segments cover the buffer's bytes and lines
/// contiguously and in order, only the last segment can be empty, segment
/// boundaries fall on line starts, every original line index inside a
/// segment fits in `usize`, and name ranges stay inside the buffer.
#[verifier::rlimit(50)]
pub proof fn lemma_segments_props(buf_len: int, lines: Seq<LineSpan>, ds: Seq<Directive>)
    requires
        1 <= lines.len() <= usize::MAX,
        0 <= buf_len <= usize::MAX,
        lines[0].start == 0,
        forall|m: int|
            0 <= m < lines.len() ==> (#[trigger] lines[m]).start <= lines[m].end <= buf_len,
        forall|m: int|
            0 <= m < lines.len() - 1 ==> (#[trigger] lines[m]).end + 1 == lines[m + 1].start,
        forall|i: int| 0 <= i < ds.len() ==> (#[trigger] ds[i]).line_index < lines.len(),
        forall|i: int| 0 <= i < ds.len() ==> (#[trigger] ds[i]).base + lines.len() <= usize::MAX,
        forall|i: int, j: int|
            0 <= i < j < ds.len() ==> (#[trigger] ds[i]).line_index < (
            #[trigger] ds[j]).line_index,
        forall|i: int|
            0 <= i < ds.len() ==> match (#[trigger] ds[i]).fname {
                Option::None => true,
                Option::Some(x) => x.0 <= x.1 <= buf_len,
            },
    ensures
        ({
            let segs = spec_segments(buf_len, lines, ds);
            &&& segs.len() == ds.len() + 1
            &&& segs[0].line_start == 0
            &&& segs[0].byte_start == 0
            &&& segs.last().line_end == lines.len()
            &&& segs.last().byte_end == buf_len
            &&& forall|i: int|
                0 <= i < segs.len() ==> (#[trigger] segs[i]).line_start <= segs[i].line_end
                    <= lines.len()
            &&& forall|i: int|
                0 <= i < segs.len() - 1 ==> (#[trigger] segs[i]).line_end == segs[i
                    + 1].line_start
            &&& forall|i: int|
                0 <= i < segs.len() - 1 ==> (#[trigger] segs[i]).line_start < segs[i].line_end
            &&& forall|i: int|
                0 <= i < segs.len() ==> (#[trigger] segs[i]).byte_start <= segs[i].byte_end
                    <= buf_len
            &&& forall|i: int|
                0 <= i < segs.len() - 1 ==> (#[trigger] segs[i]).byte_end == segs[i
                    + 1].byte_start
            &&& forall|i: int|
                0 <= i < segs.len() ==> (#[trigger] segs[i]).byte_start == line_start_at(
                    buf_len,
                    lines,
                    segs[i].line_start as int,
                )
            &&& forall|i: int|
                0 <= i < segs.len() ==> (#[trigger] segs[i]).byte_end == line_start_at(
                    buf_len,
                    lines,
                    segs[i].line_end as int,
                )
            &&& forall|i: int|
                0 <= i < segs.len() ==> (#[trigger] segs[i]).base + segs[i].line_end
                    - segs[i].line_start <= usize::MAX + 1
            &&& forall|i: int|
                0 <= i < segs.len() ==> (#[trigger] segs[i]).name_start <= segs[i].name_end
                    <= buf_len
        }),
{
    let segs = spec_segments(buf_len, lines, ds);
    let n = lines.len() as int;
    assert(lines.len() <= buf_len + 1) by {
        lemma_line_start_ge_index(lines, n - 1);
    }
    assert(segs[0].line_start == 0 && segs[0].byte_start == 0);
    assert(segs.last().line_end == lines.len() && segs.last().byte_end == buf_len);
    assert forall|i: int|
        0 <= i < segs.len() - 1 implies (#[trigger] segs[i]).line_end == segs[i + 1].line_start
        && segs[i].byte_end == segs[i + 1].byte_start by {
        assert(segs[i] == spec_segment(buf_len, lines, ds, i));
        assert(segs[i + 1] == spec_segment(buf_len, lines, ds, i + 1));
    }
    assert forall|i: int|
        0 <= i < segs.len() implies (#[trigger] segs[i]).byte_start == line_start_at(
        buf_len,
        lines,
        segs[i].line_start as int,
    ) && segs[i].byte_end == line_start_at(buf_len, lines, segs[i].line_end as int) by {
        assert(segs[i] == spec_segment(buf_len, lines, ds, i));
    }
    assert forall|i: int|
        0 <= i < segs.len() implies (#[trigger] segs[i]).line_start <= segs[i].line_end
        <= lines.len() && (i < segs.len() - 1 ==> segs[i].line_start < segs[i].line_end) by {
        if i > 0 && i < segs.len() - 1 {
            assert(ds[i - 1].line_index < ds[i].line_index);
        }
    }
    assert forall|i: int|
        0 <= i < segs.len() implies (#[trigger] segs[i]).byte_start <= segs[i].byte_end
        <= buf_len by {
        lemma_line_start_mono(
            buf_len,
            lines,
            segs[i].line_start as int,
            segs[i].line_end as int,
        );
        lemma_line_start_mono(buf_len, lines, segs[i].line_end as int, n);
    }
    assert forall|i: int|
        0 <= i < segs.len() implies (#[trigger] segs[i]).base + segs[i].line_end
        - segs[i].line_start <= usize::MAX + 1 by {
        if i > 0 {
            assert(ds[i - 1].base + lines.len() <= usize::MAX);
        }
    }
    assert forall|i: int|
        0 <= i < segs.len() implies (#[trigger] segs[i]).name_start <= segs[i].name_end
        <= buf_len by {
        if i > 0 {
            lemma_current_name_valid(ds, i - 1, buf_len);
        }
    }
}

/// Byte ranges of distinct segments are ordered: an earlier segment ends at
/// or before a later one starts.
pub proof fn lemma_segs_ordered(segs: Seq<FileSlice>, k: int, l: int)
    requires
        forall|m: int|
            0 <= m < segs.len() - 1 ==> (#[trigger] segs[m]).byte_end == segs[m + 1].byte_start,
        forall|m: int| 0 <= m < segs.len() ==> (#[trigger] segs[m]).byte_start <= segs[m].byte_end,
        0 <= k < l < segs.len(),
    ensures
        segs[k].byte_end <= segs[l].byte_start,
    decreases l - k,
{
    if k + 1 < l {
        lemma_segs_ordered(segs, k + 1, l);
    }
}

/// The segment that owns byte `p`, found by a linear scan from segment `i`:
/// the first segment whose byte range ends beyond `p`, or the last segment
/// when every range ends at or before `p`.
pub open spec fn seg_scan(ids: Seq<FileSlice>, p: int, i: int) -> int
    decreases ids.len() - i,
{
    if i >= ids.len() - 1 {
        ids.len() - 1
    } else if p < ids[i].byte_end {
        i
    } else {
        seg_scan(ids, p, i + 1)
    }
}

/// The segment that owns byte `p`: out-of-range offsets fall to the first or
/// last segment.
pub open spec fn seg_of(ids: Seq<FileSlice>, p: int) -> int {
    seg_scan(ids, p, 0)
}

/// What the linear scan finds: a segment index past all segments that end at
/// or before `p`, and `p` lies short of that segment's end unless the scan
/// was pushed to the last segment.
pub proof fn lemma_seg_scan(ids: Seq<FileSlice>, p: int, i: int)
    requires
        0 <= i < ids.len(),
    ensures
        i <= seg_scan(ids, p, i) < ids.len(),
        seg_scan(ids, p, i) < ids.len() - 1 ==> p < ids[seg_scan(ids, p, i)].byte_end,
        forall|k: int| i <= k < seg_scan(ids, p, i) ==> (#[trigger] ids[k]).byte_end <= p,
    decreases ids.len() - i,
{
    if i < ids.len() - 1 && p >= ids[i].byte_end {
        lemma_seg_scan(ids, p, i + 1);
    }
}

/// Where the scan's answer sits relative to `p`: a byte inside the buffer
/// lies inside its segment's range; a byte at or past the buffer's end is
/// clamped to the last segment.
pub proof fn lemma_seg_of_contains(ids: Seq<FileSlice>, buf_len: int, p: int)
    requires
        ids.len() >= 1,
        ids[0].byte_start == 0,
        ids.last().byte_end == buf_len,
        forall|m: int|
            0 <= m < ids.len() - 1 ==> (#[trigger] ids[m]).byte_end == ids[m + 1].byte_start,
        forall|m: int| 0 <= m < ids.len() ==> (#[trigger] ids[m]).byte_start <= ids[m].byte_end,
        0 <= p,
    ensures
        0 <= seg_of(ids, p) < ids.len(),
        p < buf_len ==> ids[seg_of(ids, p)].byte_start <= p < ids[seg_of(ids, p)].byte_end,
        p >= buf_len ==> seg_of(ids, p) == ids.len() - 1,
{
    lemma_seg_scan(ids, p, 0);
    let s = seg_of(ids, p);
    assert forall|k: int| 0 <= k < ids.len() implies (#[trigger] ids[k]).byte_end <= buf_len by {
        if k < ids.len() - 1 {
            lemma_segs_ordered(ids, k, ids.len() - 1);
        }
    }
    if s > 0 {
        assert(ids[s - 1].byte_end <= p);
        assert(ids[s].byte_start == ids[s - 1].byte_end);
    }
    if p >= buf_len && s < ids.len() - 1 {
        assert(p < ids[s].byte_end);
    }
}

/// Skipping segments that end at or before `p` does not change where the
/// linear scan stops.
pub proof fn lemma_seg_scan_skip(ids: Seq<FileSlice>, p: int, a: int, b: int)
    requires
        0 <= a <= b < ids.len(),
        forall|k: int| a <= k < b ==> (#[trigger] ids[k]).byte_end <= p,
    ensures
        seg_scan(ids, p, a) == seg_scan(ids, p, b),
    decreases b - a,
{
    if a < b {
        lemma_seg_scan_skip(ids, p, a + 1, b);
    }
}

/// The codemap of a preprocessed file: the flattened buffer, its line table,
/// and its provenance segments, built once and then only read.
#[derive(Debug)]
pub struct PreprocessedFile {
    pub ids: Vec<FileSlice>,
    pub lines: Vec<LineSpan>,
    pub contents: Vec<u8>,
}

impl PreprocessedFile {
    /// The construction invariant: the line table is the buffer's, the scan
    /// accepted every line, and the segments are exactly the ones the
    /// buffer's directives induce.
    pub open spec fn wf(self) -> bool {
        &&& self.lines@ == spec_line_table(self.contents@)
        &&& scan_error(self.contents@, self.lines@) is None
        &&& self.ids@ == spec_segments(
            self.contents@.len() as int,
            self.lines@,
            spec_directives(self.contents@, self.lines@),
        )
    }

    /// `id` is one of this codemap's slices.
    pub open spec fn slice_of(self, id: FileSlice) -> bool {
        exists|i: int| 0 <= i < self.ids@.len() && self.ids@[i] == id
    }

    /// The facts every well-formed codemap provides: the line table's shape
    /// and the segment list's shape.
    proof fn wf_props(self)
        requires
            self.wf(),
        ensures
            self.contents@.len() <= usize::MAX,
            self.lines@.len() >= 1,
            self.lines@[0].start == 0,
            forall|m: int|
                0 <= m < self.lines@.len() ==> (#[trigger] self.lines@[m]).start
                    <= self.lines@[m].end <= self.contents@.len(),
            forall|m: int|
                0 <= m < self.lines@.len() - 1 ==> (#[trigger] self.lines@[m]).end + 1
                    == self.lines@[m + 1].start,
            self.lines@.last().end == self.contents@.len() || self.lines@.last().end + 1
                == self.contents@.len(),
            self.ids@.len() >= 1,
            self.ids@[0].line_start == 0,
            self.ids@[0].byte_start == 0,
            self.ids@.last().line_end == self.lines@.len(),
            self.ids@.last().byte_end == self.contents@.len(),
            forall|i: int|
                0 <= i < self.ids@.len() ==> (#[trigger] self.ids@[i]).line_start
                    <= self.ids@[i].line_end <= self.lines@.len(),
            forall|i: int|
                0 <= i < self.ids@.len() - 1 ==> (#[trigger] self.ids@[i]).line_end == self.ids@[i
                    + 1].line_start,
            forall|i: int|
                0 <= i < self.ids@.len() - 1 ==> (#[trigger] self.ids@[i]).line_start
                    < self.ids@[i].line_end,
            forall|i: int|
                0 <= i < self.ids@.len() ==> (#[trigger] self.ids@[i]).byte_start
                    <= self.ids@[i].byte_end <= self.contents@.len(),
            forall|i: int|
                0 <= i < self.ids@.len() - 1 ==> (#[trigger] self.ids@[i]).byte_end == self.ids@[i
                    + 1].byte_start,
            forall|i: int|
                0 <= i < self.ids@.len() ==> (#[trigger] self.ids@[i]).byte_start == line_start_at(
                    self.contents@.len() as int,
                    self.lines@,
                    self.ids@[i].line_start as int,
                ),
            forall|i: int|
                0 <= i < self.ids@.len() ==> (#[trigger] self.ids@[i]).byte_end == line_start_at(
                    self.contents@.len() as int,
                    self.lines@,
                    self.ids@[i].line_end as int,
                ),
            forall|i: int|
                0 <= i < self.ids@.len() ==> (#[trigger] self.ids@[i]).base
                    + self.ids@[i].line_end - self.ids@[i].line_start <= usize::MAX + 1,
            forall|i: int|
                0 <= i < self.ids@.len() ==> (#[trigger] self.ids@[i]).name_start
                    <= self.ids@[i].name_end <= self.contents@.len(),
    {
        assert(self.contents.len() == self.contents@.len());
        assert(self.lines.len() == self.lines@.len());
        let buf = self.contents@;
        let lines = self.lines@;
        let ds = spec_directives(buf, lines);
        lemma_line_table_props(buf, 0);
        lemma_all_lines_ok(buf, lines, lines.len() as int);
        lemma_directives_props(buf, lines, lines.len() as int);
        assert forall|i: int|
            0 <= i < ds.len() implies match (#[trigger] ds[i]).fname {
            Option::None => true,
            Option::Some(x) => x.0 <= x.1 <= buf.len(),
        } by {
            assert(ds[i] == spec_directives(buf, lines)[i]);
        }
        lemma_segments_props(buf.len() as int, lines, ds);
    }

    /// The line table's shape, available from the invariant alone.
    proof fn lemma_table_facts(self)
        requires
            self.wf(),
        ensures
            self.contents@.len() <= usize::MAX,
            1 <= self.lines@.len() <= usize::MAX,
            self.lines@[0].start == 0,
            forall|m: int|
                0 <= m < self.lines@.len() ==> (#[trigger] self.lines@[m]).start
                    <= self.lines@[m].end <= self.contents@.len(),
            forall|m: int|
                0 <= m < self.lines@.len() - 1 ==> (#[trigger] self.lines@[m]).end + 1
                    == self.lines@[m + 1].start,
            self.lines@.last().end == self.contents@.len() || self.lines@.last().end + 1
                == self.contents@.len(),
            self.ids@.len() >= 1,
    {
        self.wf_props();
        assert(self.lines.len() == self.lines@.len());
    }

    /// What the invariant says of one slice of the codemap.
    proof fn lemma_slice_facts(self, id: FileSlice)
        requires
            self.wf(),
            self.slice_of(id),
        ensures
            id.line_start <= id.line_end <= self.lines@.len(),
            id.byte_start <= id.byte_end <= self.contents@.len(),
            id.byte_start == line_start_at(
                self.contents@.len() as int,
                self.lines@,
                id.line_start as int,
            ),
            id.byte_end == line_start_at(
                self.contents@.len() as int,
                self.lines@,
                id.line_end as int,
            ),
            id.base + id.line_end - id.line_start <= usize::MAX + 1,
            id.name_start <= id.name_end <= self.contents@.len(),
    {
        self.wf_props();
        let i = choose|i: int| 0 <= i < self.ids@.len() && self.ids@[i] == id;
        assert(self.ids@[i] == id);
    }

    /// A byte inside a slice's range lies on a line the slice owns.
    proof fn lemma_slice_contains_line(self, id: FileSlice, p: int)
        requires
            self.wf(),
            self.slice_of(id),
            id.byte_start <= p < id.byte_end,
        ensures
            0 <= p <= self.lines@.last().end,
            id.line_start <= line_of(self.lines@, p) < id.line_end,
            self.lines@[line_of(self.lines@, p)].start <= p <= self.lines@[line_of(
                self.lines@,
                p,
            )].end,
    {
        self.lemma_table_facts();
        self.lemma_slice_facts(id);
        let lines = self.lines@;
        let ls = id.line_start as int;
        let le = id.line_end as int;
        assert(ls < lines.len());
        assert(p <= lines.last().end) by {
            if lines.last().end + 1 == self.contents@.len() {
                assert(p < id.byte_end <= self.contents@.len());
            }
        }
        lemma_line_of(lines, p);
        let l = line_of(lines, p);
        assert(l >= ls) by {
            if l < ls {
                lemma_lines_ordered(lines, l, ls);
            }
        }
        assert(l < le) by {
            if le < lines.len() && l >= le {
                if le < l {
                    lemma_lines_ordered(lines, le, l);
                }
                assert(lines[l].start >= lines[le].start);
            }
        }
    }

    /// Builds the codemap of a flattened buffer. The whole input is read
    /// once; it is rejected when a line commits to the directive grammar but
    /// fails it, or declares a line number of zero or one too large for
    /// original line indices to fit in `usize`.
    pub fn new(contents: Vec<u8>) -> (r: Result<Self, BuildError>)
        ensures
            match r {
                Result::Ok(f) => {
                    &&& f.wf()
                    &&& f.contents@ == contents@
                    &&& scan_error(contents@, spec_line_table(contents@)) is None
                },
                Result::Err(e) => scan_error(contents@, spec_line_table(contents@))
                    == Option::Some(e),
            },
    {
        let buf_len = contents.len();
        let lines = build_line_table(&contents);
        proof {
            lemma_line_table_props(contents@, 0);
        }
        let ds = match scan_directives(&contents, &lines) {
            Result::Ok(ds) => ds,
            Result::Err(e) => {
                return Result::Err(e);
            },
        };
        proof {
            lemma_all_lines_ok(contents@, lines@, lines@.len() as int);
            lemma_directives_props(contents@, lines@, lines@.len() as int);
        }
        let ids = build_slices(buf_len, &lines, &ds);
        Result::Ok(PreprocessedFile { ids, lines, contents })
    }

    /// The full flattened buffer.
    pub fn source(&self) -> (r: &Vec<u8>)
        ensures
            r@ == self.contents@,
    {
        &self.contents
    }

    /// The flattened buffer's length in bytes.
    pub fn len(&self) -> (r: usize)
        ensures
            r == self.contents@.len(),
    {
        self.contents.len()
    }

    /// The filename text of a slice, copied out of the buffer; empty when no
    /// directive named a file for it.
    pub fn name(&self, id: &FileSlice) -> (r: Vec<u8>)
        requires
            self.wf(),
            self.slice_of(*id),
        ensures
            r@ == self.contents@.subrange(id.name_start as int, id.name_end as int),
    {
        proof {
            self.wf_props();
        }
        let mut out: Vec<u8> = Vec::new();
        let mut j = id.name_start;
        while j < id.name_end
            invariant
                id.name_start <= j <= id.name_end <= self.contents@.len(),
                out@ == self.contents@.subrange(id.name_start as int, j as int),
            decreases id.name_end - j,
        {
            out.push(self.contents[j]);
            proof {
                assert(self.contents@.subrange(id.name_start as int, j + 1int) =~= self.contents@
                    .subrange(id.name_start as int, j as int).push(self.contents@[j as int]));
            }
            j = j + 1;
        }
        out
    }

    /// The slice that owns byte `byte_index`, found by binary search: a byte
    /// on a slice boundary belongs to the following slice, and an offset at
    /// or past the buffer's end falls to the last slice.
    #[verifier::rlimit(50)]
    pub fn file_id(&self, byte_index: usize) -> (r: FileSlice)
        requires
            self.wf(),
        ensures
            r == self.ids@[seg_of(self.ids@, byte_index as int)],
            self.slice_of(r),
            byte_index < self.contents@.len() ==> r.byte_start <= byte_index < r.byte_end,
            byte_index >= self.contents@.len() ==> r == self.ids@.last(),
    {
        proof {
            self.wf_props();
            lemma_seg_scan(self.ids@, byte_index as int, 0);
            lemma_seg_of_contains(self.ids@, self.contents@.len() as int, byte_index as int);
        }
        let ghost ids = self.ids@;
        let ghost p = byte_index as int;
        let mut lo: usize = 0;
        let mut hi: usize = self.ids.len() - 1;
        while lo != hi
            invariant
                0 <= lo <= hi < ids.len(),
                ids == self.ids@,
                p == byte_index as int,
                forall|m: int|
                    0 <= m < ids.len() - 1 ==> (#[trigger] ids[m]).byte_end == ids[m
                        + 1].byte_start,
                forall|m: int|
                    0 <= m < ids.len() ==> (#[trigger] ids[m]).byte_start <= ids[m].byte_end,
                seg_of(ids, p) == seg_scan(ids, p, lo as int),
                hi < ids.len() - 1 ==> p < ids[hi as int].byte_end,
            decreases hi - lo,
        {
            let mid = lo + (hi - lo) / 2;
            if self.ids[mid].byte_end <= byte_index {
                proof {
                    assert forall|k: int| lo <= k < mid + 1 implies (#[trigger] ids[k]).byte_end
                        <= p by {
                        if k < mid {
                            lemma_segs_ordered(ids, k, mid as int);
                        }
                    }
                    lemma_seg_scan_skip(ids, p, lo as int, mid + 1);
                }
                lo = mid + 1;
            } else {
                hi = mid;
            }
        }
        proof {
            lemma_seg_scan(ids, p, lo as int);
            if seg_scan(ids, p, lo as int) > lo {
                assert(ids[lo as int].byte_end <= p);
            }
        }
        self.ids[lo]
    }

    /// The slice that owns byte `byte_index`, found by a linear scan over
    /// the slices in order: the reference the binary search is held to.
    pub fn file_id_linear(&self, byte_index: usize) -> (r: FileSlice)
        requires
            self.wf(),
        ensures
            r == self.ids@[seg_of(self.ids@, byte_index as int)],
            self.slice_of(r),
            byte_index < self.contents@.len() ==> r.byte_start <= byte_index < r.byte_end,
            byte_index >= self.contents@.len() ==> r == self.ids@.last(),
    {
        proof {
            self.wf_props();
            lemma_seg_scan(self.ids@, byte_index as int, 0);
            lemma_seg_of_contains(self.ids@, self.contents@.len() as int, byte_index as int);
        }
        let ghost ids = self.ids@;
        let ghost p = byte_index as int;
        let n = self.ids.len();
        let mut i: usize = 0;
        loop
            invariant
                n == ids.len() >= 1,
                ids == self.ids@,
                p == byte_index as int,
                0 <= i < ids.len(),
                seg_of(ids, p) == seg_scan(ids, p, i as int),
            ensures
                seg_of(ids, p) == i as int,
            decreases n - i,
        {
            if i + 1 >= n {
                proof {
                    assert(seg_scan(ids, p, i as int) == i as int);
                }
                break ;
            }
            if self.ids[i].byte_end > byte_index {
                proof {
                    assert(seg_scan(ids, p, i as int) == i as int);
                }
                break ;
            }
            proof {
                assert(seg_scan(ids, p, i as int) == seg_scan(ids, p, i + 1));
            }
            i = i + 1;
        }
        self.ids[i]
    }
    /// The original line index that the document claims for byte
    /// `byte_index` of slice `id`. An offset at or past the slice's end
    /// resolves to the slice's last original line index (so a diagnostic may
    /// point at the end of the file); an offset before the slice's start is
    /// the caller's error and is refused.
    pub fn line_index(&self, id: &FileSlice, byte_index: usize) -> (r: Result<usize, Error>)
        requires
            self.wf(),
            self.slice_of(*id),
        ensures
            match r {
                Result::Err(e) => e == Error::FileMissing && byte_index < id.byte_start,
                Result::Ok(ix) => {
                    &&& byte_index >= id.byte_start
                    &&& if byte_index >= id.byte_end {
                        ix == if id.line_end > id.line_start {
                            id.base + (id.line_end - id.line_start) - 1
                        } else {
                            id.base as int
                        }
                    } else {
                        ix == id.base + line_of(self.lines@, byte_index as int) - id.line_start
                    }
                },
            },
    {
        proof {
            self.lemma_slice_facts(*id);
        }
        if byte_index >= id.byte_end {
            if id.line_end > id.line_start {
                Result::Ok(id.base + (id.line_end - id.line_start - 1))
            } else {
                Result::Ok(id.base)
            }
        } else if byte_index < id.byte_start {
            Result::Err(Error::FileMissing)
        } else {
            proof {
                self.lemma_table_facts();
                self.lemma_slice_contains_line(*id, byte_index as int);
            }
            let l = find_line(&self.lines, byte_index);
            Result::Ok(id.base + (l - id.line_start))
        }
    }

    /// The byte range of original line `line_index` under slice `id`: the
    /// line's flattened index is recovered through the slice's offset and
    /// looked up in the table; an index that lands outside the table is
    /// refused, reporting the table's largest valid line index as the bound.
    pub fn line_range(&self, id: &FileSlice, line_index: usize) -> (r: Result<
        Range<usize>,
        Error,
    >)
        requires
            self.wf(),
            self.slice_of(*id),
        ensures
            ({
                let fl = id.line_start + line_index - id.base;
                if 0 <= fl < self.lines@.len() {
                    match r {
                        Result::Ok(rg) => rg.start == self.lines@[fl].start && rg.end
                            == self.lines@[fl].end,
                        Result::Err(_) => false,
                    }
                } else {
                    r == Result::<Range<usize>, Error>::Err(
                        Error::LineTooLarge {
                            given: line_index,
                            max: (self.lines@.len() - 1) as usize,
                        },
                    )
                }
            }),
    {
        proof {
            self.lemma_table_facts();
            self.lemma_slice_facts(*id);
            assert(self.lines.len() == self.lines@.len());
        }
        let n = self.lines.len();
        let max = n - 1;
        if line_index < id.base {
            let diff = id.base - line_index;
            if diff > id.line_start {
                return Result::Err(Error::LineTooLarge { given: line_index, max });
            }
            let fl = id.line_start - diff;
            let span = self.lines[fl];
            Result::Ok(Range { start: span.start, end: span.end })
        } else {
            let d = line_index - id.base;
            if d >= n - id.line_start {
                return Result::Err(Error::LineTooLarge { given: line_index, max });
            }
            let fl = id.line_start + d;
            let span = self.lines[fl];
            Result::Ok(Range { start: span.start, end: span.end })
        }
    }
}
/// A byte inside some slice's range belongs to that slice and no other: the
/// linear scan, and so the binary search held to it, finds exactly it.
pub proof fn lemma_seg_of_unique(ids: Seq<FileSlice>, p: int, j: int)
    requires
        forall|m: int|
            0 <= m < ids.len() - 1 ==> (#[trigger] ids[m]).byte_end == ids[m + 1].byte_start,
        forall|m: int| 0 <= m < ids.len() ==> (#[trigger] ids[m]).byte_start <= ids[m].byte_end,
        0 <= j < ids.len(),
        ids[j].byte_start <= p < ids[j].byte_end,
    ensures
        seg_of(ids, p) == j,
{
    lemma_seg_scan(ids, p, 0);
    let s = seg_of(ids, p);
    if s < j {
        lemma_segs_ordered(ids, s, j);
        assert(p < ids[s].byte_end);
    } else if s > j {
        assert(ids[j].byte_end <= p);
    }
}

/// With no directives in the buffer, the codemap has one slice: the whole
/// buffer, unnamed, with offset zero. Every byte offset resolves to it, and
/// an original line index under it is the plain flattened line index, the
/// one a direct newline count gives.
pub proof fn lemma_no_directive_identity(f: PreprocessedFile)
    requires
        f.wf(),
        spec_directives(f.contents@, f.lines@).len() == 0,
    ensures
        f.ids@.len() == 1,
        forall|p: int| seg_of(f.ids@, p) == 0,
        f.ids@[0].byte_start == 0 && f.ids@[0].byte_end == f.contents@.len(),
        f.ids@[0].line_start == 0 && f.ids@[0].line_end == f.lines@.len(),
        f.ids@[0].base == 0,
        f.ids@[0].name_start == 0 && f.ids@[0].name_end == 0,
        forall|p: int|
            0 <= p <= f.lines@.last().end ==> line_of(f.lines@, p) == nl_count(f.contents@, p),
{
    f.wf_props();
    assert forall|p: int| seg_of(f.ids@, p) == 0 by {
        assert(f.ids@.len() == 1);
    }
    assert forall|p: int|
        0 <= p <= f.lines@.last().end implies line_of(f.lines@, p) == nl_count(
        f.contents@,
        p,
    ) by {
        lemma_line_table_props(f.contents@, 0);
        lemma_line_of_counts_newlines(f.contents@, f.lines@, p);
    }
}

/// Adjacent slices meet exactly, in bytes and in lines; the first slice
/// starts at the buffer's start and the last ends at its end, so the slices
/// partition the buffer and its lines with no gap and no overlap.
pub proof fn lemma_contiguity(f: PreprocessedFile)
    requires
        f.wf(),
    ensures
        f.ids@.len() >= 1,
        forall|i: int|
            0 <= i < f.ids@.len() - 1 ==> (#[trigger] f.ids@[i]).byte_end == f.ids@[i
                + 1].byte_start,
        forall|i: int|
            0 <= i < f.ids@.len() - 1 ==> (#[trigger] f.ids@[i]).line_end == f.ids@[i
                + 1].line_start,
        f.ids@[0].byte_start == 0,
        f.ids@[0].line_start == 0,
        f.ids@.last().byte_end == f.contents@.len(),
        f.ids@.last().line_end == f.lines@.len(),
{
    f.wf_props();
}
/// The offset contract of a directive: when directive `k` stands on
/// flattened line `L`, any byte of flattened line `L + 1` resolves to the
/// slice after the directive, whose first original line index is exactly the
/// declared number minus one; and when the directive declares a filename,
/// that slice carries it.
pub proof fn lemma_directive_offset(f: PreprocessedFile, k: int, p: int)
    requires
        f.wf(),
        0 <= k < spec_directives(f.contents@, f.lines@).len(),
        spec_directives(f.contents@, f.lines@)[k].line_index + 1 < f.lines@.len(),
        f.lines@[spec_directives(f.contents@, f.lines@)[k].line_index + 1].start <= p
            <= f.lines@[spec_directives(f.contents@, f.lines@)[k].line_index + 1].end,
        p < f.contents@.len(),
    ensures
        ({
            let d = spec_directives(f.contents@, f.lines@)[k];
            let s = f.ids@[k + 1];
            &&& seg_of(f.ids@, p) == k + 1
            &&& line_of(f.lines@, p) == d.line_index + 1
            &&& s.line_start == d.line_index + 1
            &&& s.base == directive_value(
                line_seq(f.contents@, f.lines@, d.line_index as int),
            ) - 1
            &&& s.base + (line_of(f.lines@, p) - s.line_start) == directive_value(
                line_seq(f.contents@, f.lines@, d.line_index as int),
            ) - 1
            &&& (d.fname is Some ==> (s.name_start, s.name_end) == d.fname->0)
        }),
{
    f.wf_props();
    let buf = f.contents@;
    let lines = f.lines@;
    let ds = spec_directives(buf, lines);
    let n = lines.len() as int;
    lemma_all_lines_ok(buf, lines, n);
    lemma_directives_props(buf, lines, n);
    let d = ds[k];
    let s = f.ids@[k + 1];
    let el = d.line_index + 1;
    assert(s == spec_segment(buf.len() as int, lines, ds, k + 1));
    assert(s.line_start == el);
    // the byte lies inside the slice's range
    assert(s.byte_start <= p) by {
        assert(s.byte_start == line_start_at(buf.len() as int, lines, el));
    }
    let le = s.line_end as int;
    assert(le == seg_line_end(ds, n, k + 1));
    assert(el < le <= n) by {
        if k + 1 < ds.len() {
            assert(ds[k].line_index < ds[k + 1].line_index);
        }
    }
    assert(p < s.byte_end) by {
        if le < n {
            lemma_lines_ordered(lines, el, le);
            assert(s.byte_end == lines[le].start);
        } else {
            assert(s.byte_end == buf.len());
        }
    }
    lemma_seg_of_unique(f.ids@, p, k + 1);
    // the byte lies on the line after the directive
    assert(p <= lines.last().end) by {
        if el < n - 1 {
            lemma_lines_ordered(lines, el, n - 1);
        }
    }
    lemma_line_of(lines, p);
    assert(line_of(lines, p) == el);
}

/// The round trip: for every slice and every original line index within it,
/// resolving the index to its line's byte range and the range's first byte
/// back to a line index returns the same original index.
pub proof fn lemma_round_trip(f: PreprocessedFile, id: FileSlice, orig: int)
    requires
        f.wf(),
        f.slice_of(id),
        id.base <= orig,
        orig - id.base < id.line_end - id.line_start,
    ensures
        ({
            let fl = id.line_start + orig - id.base;
            let b = f.lines@[fl].start as int;
            &&& 0 <= fl < f.lines@.len()
            &&& id.byte_start <= b
            &&& (b >= id.byte_end ==> id.line_end > id.line_start && id.base + (id.line_end
                - id.line_start - 1) == orig)
            &&& (b < id.byte_end ==> line_of(f.lines@, b) == fl && id.base + (line_of(
                f.lines@,
                b,
            ) - id.line_start) == orig)
        }),
{
    f.wf_props();
    f.lemma_slice_facts(id);
    let lines = f.lines@;
    let buf_len = f.contents@.len() as int;
    let ls = id.line_start as int;
    let le = id.line_end as int;
    let fl = ls + orig - id.base;
    let b = lines[fl].start as int;
    assert(ls <= fl < le);
    assert(id.byte_start <= b) by {
        lemma_line_start_mono(buf_len, lines, ls, fl);
    }
    if b >= id.byte_end {
        assert(fl == le - 1) by {
            if fl < le - 1 {
                assert(lines[fl].start < lines[fl + 1].start);
                lemma_line_start_mono(buf_len, lines, fl + 1, le);
                assert(b < id.byte_end);
            }
        }
    } else {
        assert(b <= lines.last().end) by {
            if fl < lines.len() - 1 {
                lemma_lines_ordered(lines, fl, lines.len() - 1);
            }
        }
        lemma_line_of(lines, b);
        assert(line_of(lines, b) == fl);
    }
}
} // verus!
