//! The line table: the ordered byte ranges of the lines of a buffer.

use vstd::prelude::*;

verus! {

/// Newline byte.
pub const NL: u8 = 10;

/// The half-open byte range `[start, end)` of one line of a buffer. The
/// terminating newline, if any, sits at `end` and is not part of the range.
#[derive(Clone, Copy, Debug, PartialEq, Eq, Structural)]
pub struct LineSpan {
    pub start: usize,
    pub end: usize,
}

/// Position of the first newline at or after `i`, or `buf.len()` if there is
/// none.
pub open spec fn first_nl(buf: Seq<u8>, i: int) -> int
    decreases buf.len() - i,
{
    if i < 0 || i >= buf.len() {
        buf.len() as int
    } else if buf[i] == NL {
        i
    } else {
        first_nl(buf, i + 1)
    }
}

pub proof fn lemma_first_nl(buf: Seq<u8>, i: int)
    requires
        0 <= i <= buf.len(),
    ensures
        i <= first_nl(buf, i) <= buf.len(),
        forall|j: int| i <= j < first_nl(buf, i) ==> buf[j] != NL,
        first_nl(buf, i) < buf.len() ==> buf[first_nl(buf, i)] == NL,
    decreases buf.len() - i,
{
    if i < buf.len() && buf[i] != NL {
        lemma_first_nl(buf, i + 1);
    }
}

/// `first_nl(buf, a)` is exactly the position `e` when no newline precedes
/// `e` in `[a, e)` and `e` either holds a newline or is the buffer's end.
pub proof fn lemma_first_nl_at(buf: Seq<u8>, a: int, e: int)
    requires
        0 <= a <= e <= buf.len(),
        forall|j: int| a <= j < e ==> buf[j] != NL,
        e < buf.len() ==> buf[e] == NL,
    ensures
        first_nl(buf, a) == e,
    decreases e - a,
{
    if a < e {
        lemma_first_nl_at(buf, a + 1, e);
    }
}

/// The line table of the part of `buf` that starts at byte `i`: one span per
/// line, each ending at its newline (excluded). A final line without a
/// newline still gets a span, ending at `buf.len()`, so an empty buffer
/// yields one empty span.
pub open spec fn line_table_from(buf: Seq<u8>, i: int) -> Seq<LineSpan>
    decreases buf.len() - i,
    when 0 <= i <= buf.len() <= usize::MAX
    via line_table_from_decreases
{
    let e = first_nl(buf, i);
    if e >= buf.len() - 1 {
        seq![LineSpan { start: i as usize, end: e as usize }]
    } else {
        seq![LineSpan { start: i as usize, end: e as usize }] + line_table_from(buf, e + 1)
    }
}

#[via_fn]
proof fn line_table_from_decreases(buf: Seq<u8>, i: int) {
    lemma_first_nl(buf, i);
}

/// The line table of the whole buffer.
pub open spec fn spec_line_table(buf: Seq<u8>) -> Seq<LineSpan> {
    line_table_from(buf, 0)
}

/// The structural facts that hold of every line table: it is never empty,
/// its spans are contiguous (each next line starts one byte past the
/// previous newline), spans contain no newline, every span that stops short
/// of the buffer's end stops on a newline, and the last span ends at the
/// buffer's end, or one byte before it when the buffer ends with a newline.
pub proof fn lemma_line_table_props(buf: Seq<u8>, i: int)
    requires
        0 <= i <= buf.len() <= usize::MAX,
    ensures
        line_table_from(buf, i).len() >= 1,
        line_table_from(buf, i)[0].start == i,
        forall|k: int|
            0 <= k < line_table_from(buf, i).len() ==> i <= (#[trigger] line_table_from(buf, i)[k]).start
                <= line_table_from(buf, i)[k].end <= buf.len(),
        forall|k: int|
            0 <= k < line_table_from(buf, i).len() - 1 ==> (#[trigger] line_table_from(buf, i)[k]).end + 1
                == line_table_from(buf, i)[k + 1].start,
        forall|k: int|
            0 <= k < line_table_from(buf, i).len() && (#[trigger] line_table_from(buf, i)[k]).end
                < buf.len() ==> buf[line_table_from(buf, i)[k].end as int] == NL,
        forall|k: int, j: int|
            #![trigger line_table_from(buf, i)[k], buf[j]]
            0 <= k < line_table_from(buf, i).len() && line_table_from(buf, i)[k].start <= j
                < line_table_from(buf, i)[k].end ==> buf[j] != NL,
        line_table_from(buf, i).last().end == buf.len() || line_table_from(
            buf,
            i,
        ).last().end + 1 == buf.len(),
    decreases buf.len() - i,
{
    lemma_first_nl(buf, i);
    let e = first_nl(buf, i);
    if e < buf.len() - 1 {
        lemma_line_table_props(buf, e + 1);
        let head = seq![LineSpan { start: i as usize, end: e as usize }];
        let tail = line_table_from(buf, e + 1);
        assert(line_table_from(buf, i) == head + tail);
        assert forall|k: int|
            0 <= k < line_table_from(buf, i).len() - 1 implies (#[trigger] line_table_from(
            buf,
            i,
        )[k]).end + 1 == line_table_from(buf, i)[k + 1].start by {
            if k > 0 {
                assert(line_table_from(buf, i)[k] == tail[k - 1]);
                assert(line_table_from(buf, i)[k + 1] == tail[k]);
            }
        }
    }
}

/// Builds the line table of `buf`.
pub fn build_line_table(buf: &Vec<u8>) -> (r: Vec<LineSpan>)
    ensures
        r@ == spec_line_table(buf@),
{
    let n = buf.len();
    let mut r: Vec<LineSpan> = Vec::new();
    let mut line_start: usize = 0;
    let mut i: usize = 0;
    while i < n
        invariant
            n == buf@.len(),
            line_start <= i <= n,
            forall|j: int| line_start <= j < i ==> buf@[j] != NL,
            if line_start < n || n == 0 || buf@[n - 1] != NL {
                spec_line_table(buf@) == r@ + line_table_from(buf@, line_start as int)
            } else {
                spec_line_table(buf@) == r@
            },
        decreases n - i,
    {
        if buf[i] == NL {
            proof {
                lemma_first_nl_at(buf@, line_start as int, i as int);
            }
            r.push(LineSpan { start: line_start, end: i });
            line_start = i + 1;
        }
        i = i + 1;
    }
    if line_start < n || n == 0 || buf[n - 1] != NL {
        proof {
            lemma_first_nl_at(buf@, line_start as int, n as int);
        }
        r.push(LineSpan { start: line_start, end: n });
    }
    r
}

/// The index of the line whose span contains byte `p`, counting a line's
/// terminating newline as contained.
pub open spec fn line_of(lines: Seq<LineSpan>, p: int) -> int {
    choose|l: int| 0 <= l < lines.len() && (#[trigger] lines[l]).start <= p <= lines[l].end
}

/// Line starts grow strictly along a contiguous table, so no two lines
/// contain the same byte.
pub proof fn lemma_lines_ordered(lines: Seq<LineSpan>, k: int, l: int)
    requires
        forall|m: int| 0 <= m < lines.len() - 1 ==> (#[trigger] lines[m]).end + 1 == lines[m + 1].start,
        forall|m: int| 0 <= m < lines.len() ==> (#[trigger] lines[m]).start <= lines[m].end,
        0 <= k < l < lines.len(),
    ensures
        lines[k].end < lines[l].start,
    decreases l - k,
{
    if k + 1 < l {
        lemma_lines_ordered(lines, k + 1, l);
    }
}

/// In a contiguous table that starts at byte 0, every byte up to the last
/// span's end lies in exactly one span, the one `line_of` names.
pub proof fn lemma_line_of(lines: Seq<LineSpan>, p: int)
    requires
        lines.len() >= 1,
        lines[0].start == 0,
        forall|m: int| 0 <= m < lines.len() - 1 ==> (#[trigger] lines[m]).end + 1 == lines[m + 1].start,
        forall|m: int| 0 <= m < lines.len() ==> (#[trigger] lines[m]).start <= lines[m].end,
        0 <= p <= lines.last().end,
    ensures
        0 <= line_of(lines, p) < lines.len(),
        lines[line_of(lines, p)].start <= p <= lines[line_of(lines, p)].end,
        forall|l: int|
            0 <= l < lines.len() && (#[trigger] lines[l]).start <= p <= lines[l].end ==> l
                == line_of(lines, p),
{
    lemma_line_of_exists(lines, p, 0);
    let w = choose|l: int| 0 <= l < lines.len() && (#[trigger] lines[l]).start <= p <= lines[l].end;
    assert(lines[w].start <= p <= lines[w].end);
    assert forall|l: int|
        0 <= l < lines.len() && (#[trigger] lines[l]).start <= p <= lines[l].end implies l
        == line_of(lines, p) by {
        let w2 = line_of(lines, p);
        if l < w2 {
            lemma_lines_ordered(lines, l, w2);
        } else if w2 < l {
            lemma_lines_ordered(lines, w2, l);
        }
    }
}

proof fn lemma_line_of_exists(lines: Seq<LineSpan>, p: int, k: int)
    requires
        lines.len() >= 1,
        forall|m: int| 0 <= m < lines.len() - 1 ==> (#[trigger] lines[m]).end + 1 == lines[m + 1].start,
        0 <= k < lines.len(),
        lines[k].start <= p <= lines.last().end,
    ensures
        exists|l: int| 0 <= l < lines.len() && (#[trigger] lines[l]).start <= p <= lines[l].end,
    decreases lines.len() - k,
{
    if p <= lines[k].end {
        assert(lines[k].start <= p <= lines[k].end);
    } else {
        assert(k < lines.len() - 1);
        lemma_line_of_exists(lines, p, k + 1);
    }
}

/// Finds the line that contains byte `p` by binary search.
pub fn find_line(lines: &Vec<LineSpan>, p: usize) -> (r: usize)
    requires
        lines@.len() >= 1,
        lines@[0].start == 0,
        forall|m: int|
            0 <= m < lines@.len() - 1 ==> (#[trigger] lines@[m]).end + 1 == lines@[m + 1].start,
        forall|m: int| 0 <= m < lines@.len() ==> (#[trigger] lines@[m]).start <= lines@[m].end,
        p <= lines@.last().end,
    ensures
        r < lines@.len(),
        lines@[r as int].start <= p <= lines@[r as int].end,
        r == line_of(lines@, p as int),
{
    let mut lo: usize = 0;
    let mut hi: usize = lines.len() - 1;
    while lo != hi
        invariant
            lo <= hi < lines@.len(),
            lines@[lo as int].start <= p <= lines@[hi as int].end,
            forall|m: int|
                0 <= m < lines@.len() - 1 ==> (#[trigger] lines@[m]).end + 1 == lines@[m + 1].start,
            forall|m: int| 0 <= m < lines@.len() ==> (#[trigger] lines@[m]).start <= lines@[m].end,
        decreases hi - lo,
    {
        let mid = lo + (hi - lo) / 2;
        if lines[mid].end < p {
            proof {
                if mid + 1 < lines@.len() {
                    assert(lines@[mid + 1].start == lines@[mid as int].end + 1);
                }
            }
            lo = mid + 1;
        } else {
            proof {
                if lo < mid {
                    lemma_lines_ordered(lines@, lo as int, mid as int);
                }
            }
            hi = mid;
        }
    }
    proof {
        lemma_line_of(lines@, p as int);
    }
    lo
}

/// The number of newline bytes among the first `p` bytes of the buffer: the
/// plain line index that a direct newline count assigns to byte `p`.
pub open spec fn nl_count(buf: Seq<u8>, p: int) -> int
    decreases p,
{
    if p <= 0 {
        0
    } else {
        nl_count(buf, p - 1) + if buf[p - 1] == NL {
            1int
        } else {
            0
        }
    }
}

/// A stretch without newlines does not change the count.
proof fn lemma_nl_count_flat(buf: Seq<u8>, a: int, b: int)
    requires
        0 <= a <= b,
        forall|j: int| a <= j < b ==> buf[j] != NL,
    ensures
        nl_count(buf, b) == nl_count(buf, a),
    decreases b - a,
{
    if a < b {
        lemma_nl_count_flat(buf, a, b - 1);
    }
}

/// Each line of the table starts right after as many newlines as its index.
proof fn lemma_line_start_counts(buf: Seq<u8>, lines: Seq<LineSpan>, l: int)
    requires
        lines.len() >= 1,
        lines[0].start == 0,
        forall|m: int| 0 <= m < lines.len() ==> (#[trigger] lines[m]).start <= lines[m].end <= buf.len(),
        forall|m: int| 0 <= m < lines.len() - 1 ==> (#[trigger] lines[m]).end + 1 == lines[m + 1].start,
        forall|m: int|
            0 <= m < lines.len() && (#[trigger] lines[m]).end < buf.len() ==> buf[lines[m].end as int]
                == NL,
        forall|m: int, j: int|
            #![trigger lines[m], buf[j]]
            0 <= m < lines.len() && lines[m].start <= j < lines[m].end ==> buf[j] != NL,
        0 <= l < lines.len(),
    ensures
        nl_count(buf, lines[l].start as int) == l,
    decreases l,
{
    if l > 0 {
        lemma_line_start_counts(buf, lines, l - 1);
        let e = lines[l - 1].end as int;
        lemma_nl_count_flat(buf, lines[l - 1].start as int, e);
        assert(e < buf.len());
        assert(nl_count(buf, e + 1) == nl_count(buf, e) + 1);
    }
}

/// The line that owns a byte is the one a direct newline count names.
pub proof fn lemma_line_of_counts_newlines(buf: Seq<u8>, lines: Seq<LineSpan>, p: int)
    requires
        lines.len() >= 1,
        lines[0].start == 0,
        forall|m: int| 0 <= m < lines.len() ==> (#[trigger] lines[m]).start <= lines[m].end <= buf.len(),
        forall|m: int| 0 <= m < lines.len() - 1 ==> (#[trigger] lines[m]).end + 1 == lines[m + 1].start,
        forall|m: int|
            0 <= m < lines.len() && (#[trigger] lines[m]).end < buf.len() ==> buf[lines[m].end as int]
                == NL,
        forall|m: int, j: int|
            #![trigger lines[m], buf[j]]
            0 <= m < lines.len() && lines[m].start <= j < lines[m].end ==> buf[j] != NL,
        0 <= p <= lines.last().end,
    ensures
        line_of(lines, p) == nl_count(buf, p),
{
    lemma_line_of(lines, p);
    let l = line_of(lines, p);
    lemma_line_start_counts(buf, lines, l);
    lemma_nl_count_flat(buf, lines[l].start as int, p);
}
} // verus!
