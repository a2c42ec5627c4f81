//! The directive scanner: recognises `#line N ["F"]` marker lines.

use vstd::prelude::*;
use crate::line_table::LineSpan;

verus! {

/// Space byte, the only separator the directive grammar accepts.
pub const SP: u8 = 32;

/// Tab byte, trimmed from a line's edges before matching.
pub const TAB: u8 = 9;

/// Carriage-return byte, trimmed from a line's edges before matching.
pub const CR: u8 = 13;

/// Double-quote byte, which delimits a directive's filename.
pub const QUOTE: u8 = 34;

/// Bytes trimmed from the edges of a line before the grammar is matched.
pub open spec fn is_trim(b: u8) -> bool {
    b == SP || b == TAB || b == CR
}

/// Decimal digit bytes.
pub open spec fn is_digit(b: u8) -> bool {
    48 <= b <= 57
}

/// The marker token that opens a directive: `#line`.
pub open spec fn marker() -> Seq<u8> {
    seq![35u8, 108u8, 105u8, 110u8, 101u8]
}

/// Numeric value of a run of decimal digit bytes, most significant first.
pub open spec fn dec_value(s: Seq<u8>) -> int
    decreases s.len(),
{
    if s.len() == 0 {
        0
    } else {
        dec_value(s.drop_last()) * 10 + s.last() - 48
    }
}

/// All bytes of `s` in `[a, b)` are spaces.
pub open spec fn sp_run(s: Seq<u8>, a: int, b: int) -> bool {
    forall|j: int| a <= j < b ==> s[j] == SP
}

/// All bytes of `s` in `[a, b)` are decimal digits.
pub open spec fn digit_run(s: Seq<u8>, a: int, b: int) -> bool {
    forall|j: int| a <= j < b ==> is_digit(s[j])
}

/// All bytes of `s` from `a` on are edge-trim bytes.
pub open spec fn trim_tail(s: Seq<u8>, a: int) -> bool {
    forall|j: int| a <= j < s.len() ==> is_trim(s[j])
}

/// After leading trim bytes, the marker token followed by a space stands at
/// `lo`. Such a line is committed to the directive grammar: if the rest of
/// the grammar fails on it, that is a construction error, not content.
pub open spec fn candidate_at(s: Seq<u8>, lo: int) -> bool {
    &&& 0 <= lo
    &&& lo + 6 <= s.len()
    &&& (forall|j: int| 0 <= j < lo ==> is_trim(s[j]))
    &&& s.subrange(lo, lo + 5) == marker()
    &&& s[lo + 5] == SP
}

/// The line is committed to the directive grammar.
pub open spec fn is_candidate(s: Seq<u8>) -> bool {
    exists|lo: int| candidate_at(s, lo)
}

/// The full directive grammar with its part boundaries: leading trim bytes,
/// the marker, one or more spaces, a nonempty digit run over `[ds, de)`,
/// and optionally one or more spaces and a double-quoted filename whose text
/// spans `[f.0, f.1)`; trailing trim bytes may close the line.
pub open spec fn shape_at(s: Seq<u8>, lo: int, ds: int, de: int, f: Option<(int, int)>) -> bool {
    &&& candidate_at(s, lo)
    &&& lo + 6 <= ds < de <= s.len()
    &&& sp_run(s, lo + 5, ds)
    &&& digit_run(s, ds, de)
    &&& match f {
        None => trim_tail(s, de),
        Some(fr) => {
            &&& de + 2 <= fr.0 <= fr.1 < s.len()
            &&& sp_run(s, de, fr.0 - 1)
            &&& s[fr.0 - 1] == QUOTE
            &&& s[fr.1] == QUOTE
            &&& trim_tail(s, fr.1 + 1)
        },
    }
}

/// The line is a directive: the grammar matches in full.
pub open spec fn is_directive(s: Seq<u8>) -> bool {
    exists|t: (int, int, int, Option<(int, int)>)| #[trigger] shape_at(s, t.0, t.1, t.2, t.3)
}

/// The part boundaries of a directive line; meaningful only when
/// `is_directive` holds, in which case they are unique.
pub open spec fn directive_parts(s: Seq<u8>) -> (int, int, int, Option<(int, int)>) {
    choose|t: (int, int, int, Option<(int, int)>)| #[trigger] shape_at(s, t.0, t.1, t.2, t.3)
}

/// The line number a directive declares.
pub open spec fn directive_value(s: Seq<u8>) -> int {
    dec_value(s.subrange(directive_parts(s).1, directive_parts(s).2))
}

/// The filename text range a directive declares, relative to the line.
pub open spec fn directive_fname(s: Seq<u8>) -> Option<(int, int)> {
    directive_parts(s).3
}

/// The directive grammar matches a line in at most one way.
pub proof fn lemma_shape_unique(
    s: Seq<u8>,
    lo1: int,
    ds1: int,
    de1: int,
    f1: Option<(int, int)>,
    lo2: int,
    ds2: int,
    de2: int,
    f2: Option<(int, int)>,
)
    requires
        shape_at(s, lo1, ds1, de1, f1),
        shape_at(s, lo2, ds2, de2, f2),
    ensures
        lo1 == lo2,
        ds1 == ds2,
        de1 == de2,
        f1 == f2,
{
    // The marker byte `#` is not trimmed, so the marker's position is forced.
    assert(s.subrange(lo1, lo1 + 5)[0] == s[lo1]);
    assert(s.subrange(lo2, lo2 + 5)[0] == s[lo2]);
    assert(s[lo1] == 35 && s[lo2] == 35);
    assert(lo1 == lo2);
    // The digit run starts at the first non-space after the marker.
    assert(ds1 == ds2) by {
        if ds1 < ds2 {
            assert(is_digit(s[ds1]) && s[ds1] == SP);
        } else if ds2 < ds1 {
            assert(is_digit(s[ds2]) && s[ds2] == SP);
        }
    }
    // The digit run ends at the first byte that is not a digit.
    assert(de1 == de2) by {
        if de1 < de2 {
            assert(is_digit(s[de1]));
            lemma_after_digits_not_digit(s, lo1, ds1, de1, f1);
        } else if de2 < de1 {
            assert(is_digit(s[de2]));
            lemma_after_digits_not_digit(s, lo2, ds2, de2, f2);
        }
    }
    // The filename part is forced byte by byte.
    match (f1, f2) {
        (Option::None, Option::None) => {},
        (Option::None, Option::Some(fr2)) => {
            assert(is_trim(s[fr2.0 - 1]));  // QUOTE in the trim tail of shape 1
        },
        (Option::Some(fr1), Option::None) => {
            assert(is_trim(s[fr1.0 - 1]));
        },
        (Option::Some(fr1), Option::Some(fr2)) => {
            assert(fr1.0 == fr2.0) by {
                if fr1.0 < fr2.0 {
                    assert(s[fr1.0 - 1] == SP && s[fr1.0 - 1] == QUOTE);
                } else if fr2.0 < fr1.0 {
                    assert(s[fr2.0 - 1] == SP && s[fr2.0 - 1] == QUOTE);
                }
            }
            assert(fr1.1 == fr2.1) by {
                if fr1.1 < fr2.1 {
                    assert(is_trim(s[fr2.1]) && s[fr2.1] == QUOTE);
                } else if fr2.1 < fr1.1 {
                    assert(is_trim(s[fr1.1]) && s[fr1.1] == QUOTE);
                }
            }
        },
    }
}

/// In a full match, the byte after the digit run is never a digit.
proof fn lemma_after_digits_not_digit(s: Seq<u8>, lo: int, ds: int, de: int, f: Option<(int, int)>)
    requires
        shape_at(s, lo, ds, de, f),
        de < s.len(),
    ensures
        !is_digit(s[de]),
{
    match f {
        Option::None => {
            assert(is_trim(s[de]));
        },
        Option::Some(fr) => {
            if de < fr.0 - 1 {
                assert(s[de] == SP);
            } else {
                assert(s[de] == QUOTE);
            }
        },
    }
}

/// A run of digit bytes has a nonnegative value.
pub proof fn lemma_dec_value_nonneg(s: Seq<u8>)
    requires
        forall|j: int| 0 <= j < s.len() ==> is_digit(s[j]),
    ensures
        dec_value(s) >= 0,
    decreases s.len(),
{
    if s.len() > 0 {
        lemma_dec_value_nonneg(s.drop_last());
    }
}

/// A full match determines the directive's parts.
pub proof fn lemma_shape_determines(s: Seq<u8>, lo: int, ds: int, de: int, f: Option<(int, int)>)
    requires
        shape_at(s, lo, ds, de, f),
    ensures
        is_directive(s),
        directive_parts(s) == (lo, ds, de, f),
        directive_value(s) == dec_value(s.subrange(ds, de)),
        directive_fname(s) == f,
{
    let t = (lo, ds, de, f);
    assert(shape_at(s, t.0, t.1, t.2, t.3));
    let c = directive_parts(s);
    assert(shape_at(s, c.0, c.1, c.2, c.3));
    lemma_shape_unique(s, lo, ds, de, f, c.0, c.1, c.2, c.3);
}


/// The outcome of matching one line against the directive grammar.
pub(crate) enum LineParse {
    /// Ordinary content: the line is not committed to the grammar.
    Content,
    /// A full directive.
    Directive(ParsedDirective),
    /// A line committed to the grammar that failed it.
    Malformed,
}

/// What the parser reads out of one directive line.
pub(crate) struct ParsedDirective {
    /// The declared line number does not fit in `usize`.
    pub overflow: bool,
    /// The declared line number, meaningful only when `overflow` is false.
    pub value: usize,
    /// Absolute byte range of the filename text, quotes excluded.
    pub fname: Option<(usize, usize)>,
}

fn is_trim_byte(b: u8) -> (r: bool)
    ensures
        r == is_trim(b),
{
    b == SP || b == TAB || b == CR
}

/// First position in `[from, to)` that does not hold an edge-trim byte.
fn skip_trim(buf: &Vec<u8>, from: usize, to: usize) -> (r: usize)
    requires
        from <= to <= buf@.len(),
    ensures
        from <= r <= to,
        forall|j: int| from <= j < r ==> is_trim(buf@[j]),
        r < to ==> !is_trim(buf@[r as int]),
{
    let mut i = from;
    while i < to
        invariant
            from <= i <= to <= buf@.len(),
            forall|j: int| from <= j < i ==> is_trim(buf@[j]),
        ensures
            from <= i <= to,
            forall|j: int| from <= j < i ==> is_trim(buf@[j]),
            i < to ==> !is_trim(buf@[i as int]),
        decreases to - i,
    {
        if !is_trim_byte(buf[i]) {
            break ;
        }
        i = i + 1;
    }
    i
}

/// Smallest position `r` in `[from, to]` such that everything in `[r, to)`
/// is an edge-trim byte.
fn skip_trim_rev(buf: &Vec<u8>, from: usize, to: usize) -> (r: usize)
    requires
        from <= to <= buf@.len(),
    ensures
        from <= r <= to,
        forall|j: int| r <= j < to ==> is_trim(buf@[j]),
        r > from ==> !is_trim(buf@[r - 1]),
{
    let mut i = to;
    while i > from
        invariant
            from <= i <= to <= buf@.len(),
            forall|j: int| i <= j < to ==> is_trim(buf@[j]),
        ensures
            from <= i <= to,
            forall|j: int| i <= j < to ==> is_trim(buf@[j]),
            i > from ==> !is_trim(buf@[i - 1]),
        decreases i,
    {
        if !is_trim_byte(buf[i - 1]) {
            break ;
        }
        i = i - 1;
    }
    i
}

/// First position in `[from, to)` that does not hold a space.
fn skip_sp(buf: &Vec<u8>, from: usize, to: usize) -> (r: usize)
    requires
        from <= to <= buf@.len(),
    ensures
        from <= r <= to,
        forall|j: int| from <= j < r ==> buf@[j] == SP,
        r < to ==> buf@[r as int] != SP,
{
    let mut i = from;
    while i < to
        invariant
            from <= i <= to <= buf@.len(),
            forall|j: int| from <= j < i ==> buf@[j] == SP,
        ensures
            from <= i <= to,
            forall|j: int| from <= j < i ==> buf@[j] == SP,
            i < to ==> buf@[i as int] != SP,
        decreases to - i,
    {
        if buf[i] != SP {
            break ;
        }
        i = i + 1;
    }
    i
}

/// First position in `[from, to)` that does not hold a decimal digit.
fn skip_digits(buf: &Vec<u8>, from: usize, to: usize) -> (r: usize)
    requires
        from <= to <= buf@.len(),
    ensures
        from <= r <= to,
        forall|j: int| from <= j < r ==> is_digit(buf@[j]),
        r < to ==> !is_digit(buf@[r as int]),
{
    let mut i = from;
    while i < to
        invariant
            from <= i <= to <= buf@.len(),
            forall|j: int| from <= j < i ==> is_digit(buf@[j]),
        ensures
            from <= i <= to,
            forall|j: int| from <= j < i ==> is_digit(buf@[j]),
            i < to ==> !is_digit(buf@[i as int]),
        decreases to - i,
    {
        let b = buf[i];
        if b < 48 || b > 57 {
            break ;
        }
        i = i + 1;
    }
    i
}

/// Value of the digit run `[ds, de)` of `buf`; the flag reports a value too
/// large for `usize`, in which case the numeric part is meaningless.
fn digits_value(buf: &Vec<u8>, ds: usize, de: usize) -> (r: (usize, bool))
    requires
        ds <= de <= buf@.len(),
        forall|j: int| ds <= j < de ==> is_digit(buf@[j]),
    ensures
        ({
            let v = dec_value(buf@.subrange(ds as int, de as int));
            &&& (r.1 <==> v > usize::MAX)
            &&& (!r.1 ==> r.0 == v)
        }),
{
    let ghost whole = buf@.subrange(ds as int, de as int);
    let mut acc: usize = 0;
    let mut ovf: bool = false;
    let mut j: usize = ds;
    while j < de
        invariant
            ds <= j <= de <= buf@.len(),
            forall|k: int| ds <= k < de ==> is_digit(buf@[k]),
            whole == buf@.subrange(ds as int, de as int),
            !ovf ==> acc == dec_value(buf@.subrange(ds as int, j as int)),
            ovf ==> dec_value(buf@.subrange(ds as int, j as int)) > usize::MAX,
        decreases de - j,
    {
        let d = buf[j] - 48;
        let ghost prefix = buf@.subrange(ds as int, j as int);
        let ghost extended = buf@.subrange(ds as int, j + 1int);
        proof {
            assert(extended.drop_last() =~= prefix);
            assert(extended.last() == buf@[j as int]);
            assert(dec_value(extended) == dec_value(prefix) * 10 + buf@[j as int] - 48);
            assert(forall|k: int| 0 <= k < prefix.len() ==> is_digit(prefix[k]));
            lemma_dec_value_nonneg(prefix);
        }
        if ovf {
            proof {
                assert(dec_value(prefix) * 10 >= dec_value(prefix));
            }
        } else {
            match acc.checked_mul(10) {
                Option::Some(m) => {
                    match m.checked_add(d as usize) {
                        Option::Some(v) => {
                            acc = v;
                        },
                        Option::None => {
                            ovf = true;
                        },
                    }
                },
                Option::None => {
                    ovf = true;
                    proof {
                        assert(dec_value(extended) > usize::MAX);
                    }
                },
            }
        }
        j = j + 1;
    }
    proof {
        assert(buf@.subrange(ds as int, j as int) == whole);
    }
    (acc, ovf)
}

/// Two candidate positions in one line agree: the marker byte `#` is not a
/// trim byte, so the marker can start only at the first non-trim position.
pub proof fn lemma_candidate_unique(s: Seq<u8>, lo1: int, lo2: int)
    requires
        candidate_at(s, lo1),
        candidate_at(s, lo2),
    ensures
        lo1 == lo2,
{
    assert(s.subrange(lo1, lo1 + 5)[0] == s[lo1]);
    assert(s.subrange(lo2, lo2 + 5)[0] == s[lo2]);
    assert(s[lo1] == 35 && s[lo2] == 35);
}

/// Against a candidate line, any full match must place its marker at the
/// candidate position and its digit run at the first non-space after the
/// marker's separating space.
proof fn lemma_parts_forced(
    s: Seq<u8>,
    lo: int,
    ds: int,
    t: (int, int, int, Option<(int, int)>),
)
    requires
        candidate_at(s, lo),
        shape_at(s, t.0, t.1, t.2, t.3),
        lo + 6 <= ds <= s.len(),
        forall|j: int| lo + 6 <= j < ds ==> s[j] == SP,
        ds < s.len() ==> s[ds] != SP,
    ensures
        t.0 == lo,
        t.1 == ds,
        ds < s.len() && is_digit(s[ds]),
{
    lemma_candidate_unique(s, lo, t.0);
    assert(t.1 == ds) by {
        if t.1 < ds {
            assert(s[t.1] == SP && is_digit(s[t.1]));
        } else if t.1 > ds {
            assert(s[ds] == SP);
        }
    }
    assert(is_digit(s[ds]));
}

/// Against a candidate line, a full match's digit run must stop at the first
/// byte that is not a digit.
proof fn lemma_digits_end_forced(
    s: Seq<u8>,
    lo: int,
    ds: int,
    de: int,
    t: (int, int, int, Option<(int, int)>),
)
    requires
        candidate_at(s, lo),
        shape_at(s, t.0, t.1, t.2, t.3),
        lo + 6 <= ds <= de <= s.len(),
        forall|j: int| lo + 6 <= j < ds ==> s[j] == SP,
        ds < s.len() ==> s[ds] != SP,
        forall|j: int| ds <= j < de ==> is_digit(s[j]),
        de < s.len() ==> !is_digit(s[de]),
    ensures
        t.0 == lo,
        t.1 == ds,
        t.2 == de,
{
    lemma_parts_forced(s, lo, ds, t);
    assert(t.2 == de) by {
        if t.2 < de {
            lemma_after_digits_not_digit(s, t.0, t.1, t.2, t.3);
            assert(is_digit(s[t.2]));
        } else if t.2 > de {
            assert(is_digit(s[de]));
        }
    }
}

/// Matches the line `[a, b)` of `buf` against the directive grammar: the
/// token `#line`, one or more spaces, an unsigned decimal integer, then
/// optionally one or more spaces and a double-quoted filename, with spaces,
/// tabs and carriage returns allowed at the line's edges. A line whose
/// trimmed content does not start with `#line` followed by a space is
/// ordinary content; one that starts so but fails the rest of the grammar is
/// malformed.
#[verifier::rlimit(100)]
pub(crate) fn parse_line(buf: &Vec<u8>, a: usize, b: usize) -> (r: LineParse)
    requires
        a <= b <= buf@.len(),
    ensures
        ({
            let s = buf@.subrange(a as int, b as int);
            match r {
                LineParse::Content => !is_candidate(s),
                LineParse::Malformed => is_candidate(s) && !is_directive(s),
                LineParse::Directive(p) => {
                    &&& is_directive(s)
                    &&& (p.overflow <==> directive_value(s) > usize::MAX)
                    &&& (!p.overflow ==> p.value == directive_value(s))
                    &&& match (p.fname, directive_fname(s)) {
                        (Option::None, Option::None) => true,
                        (Option::Some(x), Option::Some(ff)) => x.0 == a + ff.0 && x.1 == a + ff.1,
                        _ => false,
                    }
                },
            }
        }),
{
    let ghost s = buf@.subrange(a as int, b as int);
    let lo = skip_trim(buf, a, b);
    if b - lo < 6 {
        proof {
            assert forall|lo2: int| !candidate_at(s, lo2) by {
                if candidate_at(s, lo2) {
                    assert(s.subrange(lo2, lo2 + 5)[0] == s[lo2]);
                    assert(s[lo2] == 35);
                    if lo2 + a < lo {
                        assert(is_trim(buf@[lo2 + a]));
                    } else if lo2 + a > lo {
                        assert(is_trim(s[lo - a]));
                    }
                }
            }
        }
        return LineParse::Content;
    }
    if buf[lo] != 35 || buf[lo + 1] != 108 || buf[lo + 2] != 105 || buf[lo + 3] != 110 || buf[lo
        + 4] != 101 || buf[lo + 5] != SP {
        proof {
            assert forall|lo2: int| !candidate_at(s, lo2) by {
                if candidate_at(s, lo2) {
                    assert(s.subrange(lo2, lo2 + 5)[0] == s[lo2]);
                    assert(s[lo2] == 35);
                    if lo2 + a < lo {
                        assert(is_trim(buf@[lo2 + a]));
                    } else if lo2 + a > lo {
                        assert(is_trim(s[lo - a]));
                    }
                    assert(lo2 == lo - a);
                    assert(s.subrange(lo2, lo2 + 5)[1] == s[lo2 + 1]);
                    assert(s.subrange(lo2, lo2 + 5)[2] == s[lo2 + 2]);
                    assert(s.subrange(lo2, lo2 + 5)[3] == s[lo2 + 3]);
                    assert(s.subrange(lo2, lo2 + 5)[4] == s[lo2 + 4]);
                }
            }
        }
        return LineParse::Content;
    }
    proof {
        assert(s.subrange(lo - a, lo - a + 5) =~= marker());
        assert(candidate_at(s, lo - a));
    }
    let ghost rlo = lo - a;
    let ds = skip_sp(buf, lo + 6, b);
    let ghost rds = ds - a;
    if ds == b || buf[ds] < 48 || buf[ds] > 57 {
        proof {
            assert forall|t: (int, int, int, Option<(int, int)>)| !shape_at(
                s,
                t.0,
                t.1,
                t.2,
                t.3,
            ) by {
                if shape_at(s, t.0, t.1, t.2, t.3) {
                    lemma_parts_forced(s, rlo, rds, t);
                }
            }
        }
        return LineParse::Malformed;
    }
    let de = skip_digits(buf, ds, b);
    let ghost rde = de - a;
    proof {
        if de == ds {
            assert(!is_digit(buf@[ds as int]));
        }
        assert(ds < de);
    }
    let (value, overflow) = digits_value(buf, ds, de);
    proof {
        assert(s.subrange(rds, rde) =~= buf@.subrange(ds as int, de as int));
    }
    let q = skip_sp(buf, de, b);
    let ghost rq = q - a;
    if q < b && buf[q] == QUOTE {
        if q == de {
            proof {
                assert forall|t: (int, int, int, Option<(int, int)>)| !shape_at(
                    s,
                    t.0,
                    t.1,
                    t.2,
                    t.3,
                ) by {
                    if shape_at(s, t.0, t.1, t.2, t.3) {
                        lemma_digits_end_forced(s, rlo, rds, rde, t);
                        match t.3 {
                            Option::None => {
                                assert(is_trim(s[rde]));
                            },
                            Option::Some(fr) => {
                                assert(s[rde] == SP);
                            },
                        }
                    }
                }
            }
            return LineParse::Malformed;
        }
        let e2 = skip_trim_rev(buf, q + 1, b);
        if e2 > q + 1 && buf[e2 - 1] == QUOTE {
            let ghost fr = ((q + 1 - a) as int, (e2 - 1 - a) as int);
            proof {
                assert(shape_at(s, rlo, rds, rde, Option::Some(fr)));
                lemma_shape_determines(s, rlo, rds, rde, Option::Some(fr));
            }
            return LineParse::Directive(
                ParsedDirective { overflow, value, fname: Option::Some((q + 1, e2 - 1)) },
            );
        }
        proof {
            assert forall|t: (int, int, int, Option<(int, int)>)| !shape_at(
                s,
                t.0,
                t.1,
                t.2,
                t.3,
            ) by {
                if shape_at(s, t.0, t.1, t.2, t.3) {
                    lemma_digits_end_forced(s, rlo, rds, rde, t);
                    match t.3 {
                        Option::None => {
                            assert(is_trim(s[rq]));
                        },
                        Option::Some(fr2) => {
                            assert(fr2.0 - 1 == rq) by {
                                if fr2.0 - 1 < rq {
                                    assert(s[fr2.0 - 1] == SP);
                                } else if fr2.0 - 1 > rq {
                                    assert(s[rq] == SP);
                                }
                            }
                            if e2 == q + 1 {
                                assert(is_trim(s[fr2.1]));
                            } else {
                                assert(fr2.1 == e2 - 1 - a) by {
                                    if fr2.1 > e2 - 1 - a {
                                        assert(is_trim(s[fr2.1]));
                                    } else if fr2.1 < e2 - 1 - a {
                                        assert(is_trim(s[e2 - 1 - a]));
                                        assert(!is_trim(buf@[e2 - 1]));
                                    }
                                }
                            }
                        },
                    }
                }
            }
        }
        return LineParse::Malformed;
    }
    let t2 = skip_trim(buf, q, b);
    if t2 == b {
        proof {
            assert(shape_at(s, rlo, rds, rde, Option::None::<(int, int)>));
            lemma_shape_determines(s, rlo, rds, rde, Option::None);
        }
        return LineParse::Directive(ParsedDirective { overflow, value, fname: Option::None });
    }
    proof {
        assert forall|t: (int, int, int, Option<(int, int)>)| !shape_at(s, t.0, t.1, t.2, t.3) by {
            if shape_at(s, t.0, t.1, t.2, t.3) {
                lemma_digits_end_forced(s, rlo, rds, rde, t);
                match t.3 {
                    Option::None => {
                        assert(is_trim(s[t2 - a]));
                    },
                    Option::Some(fr2) => {
                        assert(fr2.0 - 1 == rq) by {
                            if fr2.0 - 1 < rq {
                                assert(s[fr2.0 - 1] == SP);
                            } else if fr2.0 - 1 > rq {
                                assert(s[rq] == SP);
                            }
                        }
                        assert(s[rq] == QUOTE);
                    },
                }
            }
        }
    }
    LineParse::Malformed
}

/// A construction-time failure: the whole input is rejected.
#[derive(Clone, Copy, Debug, PartialEq, Eq, Structural)]
pub enum BuildError {
    /// The line at `line_index` committed to the directive grammar but did
    /// not complete it.
    InvalidDirective { line_index: usize },
    /// The directive at `line_index` declared a line number of zero, or one
    /// so large that an original line index could exceed `usize::MAX`.
    NumberOutOfRange { line_index: usize },
}

/// What the scanner records about one directive line.
#[derive(Clone, Copy, Debug)]
pub struct Directive {
    /// Index of the directive's own line in the line table.
    pub line_index: usize,
    /// Byte offset at which the directive's line starts.
    pub byte_index: usize,
    /// The declared line number minus one: the original line index the
    /// document claims for the line that follows the directive.
    pub base: usize,
    /// Absolute byte range of the declared filename, quotes excluded.
    pub fname: Option<(usize, usize)>,
}

/// The bytes of line `l` of the table.
pub open spec fn line_seq(buf: Seq<u8>, lines: Seq<LineSpan>, l: int) -> Seq<u8> {
    buf.subrange(lines[l].start as int, lines[l].end as int)
}

/// The largest line number a directive may declare. Any larger value could
/// push an original line index past `usize::MAX`, since a segment never has
/// more lines than the whole table.
pub open spec fn max_declared(lines: Seq<LineSpan>) -> int {
    usize::MAX - lines.len() + 1
}

/// The error that rejects line `l`, if any: a line committed to the grammar
/// must complete it, and a declared number must be at least 1 and small
/// enough for every derived original line index to fit in `usize`.
pub open spec fn line_error(buf: Seq<u8>, lines: Seq<LineSpan>, l: int) -> Option<BuildError> {
    let s = line_seq(buf, lines, l);
    if !is_candidate(s) {
        Option::None
    } else if !is_directive(s) {
        Option::Some(BuildError::InvalidDirective { line_index: l as usize })
    } else if !(1 <= directive_value(s) <= max_declared(lines)) {
        Option::Some(BuildError::NumberOutOfRange { line_index: l as usize })
    } else {
        Option::None
    }
}

/// The record the scanner keeps for the directive on line `l`.
pub open spec fn spec_directive(buf: Seq<u8>, lines: Seq<LineSpan>, l: int) -> Directive {
    let s = line_seq(buf, lines, l);
    Directive {
        line_index: l as usize,
        byte_index: lines[l].start,
        base: (directive_value(s) - 1) as usize,
        fname: match directive_fname(s) {
            Option::None => Option::None,
            Option::Some(ff) => Option::Some(
                ((lines[l].start + ff.0) as usize, (lines[l].start + ff.1) as usize),
            ),
        },
    }
}

/// The directives among the first `n` lines, in line order.
pub open spec fn directives_upto(buf: Seq<u8>, lines: Seq<LineSpan>, n: int) -> Seq<Directive>
    decreases n,
{
    if n <= 0 {
        Seq::empty()
    } else if is_directive(line_seq(buf, lines, n - 1)) {
        directives_upto(buf, lines, n - 1).push(spec_directive(buf, lines, n - 1))
    } else {
        directives_upto(buf, lines, n - 1)
    }
}

/// All directives of the buffer, in line order.
pub open spec fn spec_directives(buf: Seq<u8>, lines: Seq<LineSpan>) -> Seq<Directive> {
    directives_upto(buf, lines, lines.len() as int)
}

/// The error of the first rejected line among the first `n`, if any.
pub open spec fn first_error_upto(buf: Seq<u8>, lines: Seq<LineSpan>, n: int) -> Option<
    BuildError,
>
    decreases n,
{
    if n <= 0 {
        Option::None
    } else {
        match first_error_upto(buf, lines, n - 1) {
            Option::Some(e) => Option::Some(e),
            Option::None => line_error(buf, lines, n - 1),
        }
    }
}

/// The error that rejects the whole buffer, if any.
pub open spec fn scan_error(buf: Seq<u8>, lines: Seq<LineSpan>) -> Option<BuildError> {
    first_error_upto(buf, lines, lines.len() as int)
}

/// Once a line is rejected, scanning further lines reports the same error.
pub proof fn lemma_first_error_extends(buf: Seq<u8>, lines: Seq<LineSpan>, m: int, n: int)
    requires
        0 <= m <= n,
        first_error_upto(buf, lines, m) is Some,
    ensures
        first_error_upto(buf, lines, n) == first_error_upto(buf, lines, m),
    decreases n,
{
    if m < n {
        lemma_first_error_extends(buf, lines, m, n - 1);
    }
}

/// A clean scan of `n` lines means every one of them is acceptable.
pub proof fn lemma_all_lines_ok(buf: Seq<u8>, lines: Seq<LineSpan>, n: int)
    requires
        first_error_upto(buf, lines, n) is None,
    ensures
        forall|l: int| 0 <= l < n ==> line_error(buf, lines, l) is None,
    decreases n,
{
    if n > 0 {
        assert(first_error_upto(buf, lines, n - 1) is None);
        lemma_all_lines_ok(buf, lines, n - 1);
    }
}

/// Scans the lines of `buf` in order and collects the directives among them.
pub(crate) fn scan_directives(buf: &Vec<u8>, lines: &Vec<LineSpan>) -> (r: Result<
    Vec<Directive>,
    BuildError,
>)
    requires
        forall|l: int|
            0 <= l < lines@.len() ==> (#[trigger] lines@[l]).start <= lines@[l].end <= buf@.len(),
    ensures
        match scan_error(buf@, lines@) {
            Option::None => r is Ok && r->Ok_0@ == spec_directives(buf@, lines@),
            Option::Some(e) => r is Err && r->Err_0 == e,
        },
{
    let n_lines = lines.len();
    let bound = usize::MAX - n_lines;
    let mut out: Vec<Directive> = Vec::new();
    let mut l: usize = 0;
    while l < n_lines
        invariant
            l <= n_lines == lines@.len(),
            bound == usize::MAX - n_lines,
            forall|k: int|
                0 <= k < lines@.len() ==> (#[trigger] lines@[k]).start <= lines@[k].end
                    <= buf@.len(),
            first_error_upto(buf@, lines@, l as int) is None,
            out@ == directives_upto(buf@, lines@, l as int),
        decreases n_lines - l,
    {
        let span = lines[l];
        let ghost s = buf@.subrange(span.start as int, span.end as int);
        match parse_line(buf, span.start, span.end) {
            LineParse::Content => {
                proof {
                    assert(line_error(buf@, lines@, l as int) is None);
                    assert(directives_upto(buf@, lines@, l + 1) == out@);
                }
            },
            LineParse::Malformed => {
                proof {
                    let e = BuildError::InvalidDirective { line_index: l };
                    assert(line_error(buf@, lines@, l as int) == Option::Some(e));
                    assert(first_error_upto(buf@, lines@, l + 1) == Option::Some(e));
                    lemma_first_error_extends(buf@, lines@, l + 1, n_lines as int);
                }
                return Result::Err(BuildError::InvalidDirective { line_index: l });
            },
            LineParse::Directive(p) => {
                if p.overflow || p.value == 0 || p.value - 1 > bound {
                    proof {
                        let e = BuildError::NumberOutOfRange { line_index: l };
                        assert(!(1 <= directive_value(s) <= max_declared(lines@)));
                        assert(line_error(buf@, lines@, l as int) == Option::Some(e));
                        assert(first_error_upto(buf@, lines@, l + 1) == Option::Some(e));
                        lemma_first_error_extends(buf@, lines@, l + 1, n_lines as int);
                    }
                    return Result::Err(BuildError::NumberOutOfRange { line_index: l });
                }
                out.push(
                    Directive {
                        line_index: l,
                        byte_index: span.start,
                        base: p.value - 1,
                        fname: p.fname,
                    },
                );
                proof {
                    assert(line_error(buf@, lines@, l as int) is None);
                    let d = spec_directive(buf@, lines@, l as int);
                    assert(out@.last() == d) by {
                        match (p.fname, directive_fname(s)) {
                            (Option::None, Option::None) => {},
                            (Option::Some(x), Option::Some(ff)) => {
                                let t = directive_parts(s);
                                assert(shape_at(s, t.0, t.1, t.2, t.3));
                                assert(0 <= ff.0 <= ff.1 < s.len());
                            },
                            _ => {},
                        }
                    }
                    assert(directives_upto(buf@, lines@, l + 1) == out@);
                }
            },
        }
        l = l + 1;
    }
    Result::Ok(out)
}
/// The facts the segment builder needs of a clean scan's directive list:
/// entries are in strictly increasing line order, each sits on its own line
/// with a valid filename range inside that line, each is the record of its
/// line, its declared number was accepted, and every directive line of the
/// buffer is listed.
pub proof fn lemma_directives_props(buf: Seq<u8>, lines: Seq<LineSpan>, n: int)
    requires
        0 <= n <= lines.len(),
        forall|l: int|
            0 <= l < lines.len() ==> (#[trigger] lines[l]).start <= lines[l].end <= buf.len(),
        forall|l: int| 0 <= l < n ==> line_error(buf, lines, l) is None,
    ensures
        forall|i: int|
            0 <= i < directives_upto(buf, lines, n).len() ==> {
                let d = #[trigger] directives_upto(buf, lines, n)[i];
                &&& d.line_index < n
                &&& d.byte_index == lines[d.line_index as int].start
                &&& is_directive(line_seq(buf, lines, d.line_index as int))
                &&& d == spec_directive(buf, lines, d.line_index as int)
                &&& 1 <= directive_value(line_seq(buf, lines, d.line_index as int))
                    <= max_declared(lines)
                &&& d.base == directive_value(line_seq(buf, lines, d.line_index as int)) - 1
                &&& d.base + lines.len() <= usize::MAX
                &&& match d.fname {
                    Option::None => true,
                    Option::Some(x) => lines[d.line_index as int].start <= x.0 <= x.1 <= lines[
                        d.line_index as int
                    ].end,
                }
            },
        forall|i: int, j: int|
            0 <= i < j < directives_upto(buf, lines, n).len()
                ==> (#[trigger] directives_upto(buf, lines, n)[i]).line_index < (
            #[trigger] directives_upto(buf, lines, n)[j]).line_index,
        forall|l: int|
            0 <= l < n && is_directive(line_seq(buf, lines, l)) ==> exists|i: int|
                0 <= i < directives_upto(buf, lines, n).len()
                    && (#[trigger] directives_upto(buf, lines, n)[i]).line_index == l,
    decreases n,
{
    if n > 0 {
        lemma_directives_props(buf, lines, n - 1);
        let prev = directives_upto(buf, lines, n - 1);
        let cur = directives_upto(buf, lines, n);
        let s = line_seq(buf, lines, n - 1);
        if is_directive(s) {
            let d = spec_directive(buf, lines, n - 1);
            assert(cur == prev.push(d));
            assert(line_error(buf, lines, n - 1) is None);
            assert(1 <= directive_value(s) <= max_declared(lines));
            match directive_fname(s) {
                Option::None => {},
                Option::Some(ff) => {
                    let t = directive_parts(s);
                    assert(shape_at(s, t.0, t.1, t.2, t.3));
                    assert(0 <= ff.0 <= ff.1 < s.len());
                },
            }
            assert forall|l: int|
                0 <= l < n && is_directive(line_seq(buf, lines, l)) implies exists|i: int|
                0 <= i < cur.len() && (#[trigger] cur[i]).line_index == l by {
                if l == n - 1 {
                    assert(cur[cur.len() - 1].line_index == l);
                } else {
                    let i = choose|i: int|
                        0 <= i < prev.len() && (#[trigger] prev[i]).line_index == l;
                    assert(cur[i].line_index == l);
                }
            }
        } else {
            assert(cur == prev);
        }
    }
}
} // verus!
