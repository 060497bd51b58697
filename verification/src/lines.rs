//! Line model of a byte buffer.
//!
//! A buffer is split at newline bytes; a trailing newline ends the last line
//! rather than opening an empty one, matching `str::lines`. The model is a
//! sequence of spans `(start, end)` into the buffer, one per line, with the
//! newline separators sitting between consecutive spans.

use vstd::prelude::*;
use crate::NEWLINE;

verus! {

/// Index of the first newline at or after `pos`, or `s.len()` if none.
pub open spec fn first_nl_from(s: Seq<u8>, pos: int) -> int
    decreases s.len() - pos,
{
    if pos < 0 || pos >= s.len() {
        s.len() as int
    } else if s[pos] == NEWLINE {
        pos
    } else {
        first_nl_from(s, pos + 1)
    }
}

pub proof fn lemma_first_nl_from(s: Seq<u8>, pos: int)
    requires
        0 <= pos <= s.len(),
    ensures
        pos <= first_nl_from(s, pos) <= s.len(),
        forall|t: int| pos <= t < first_nl_from(s, pos) ==> s[t] != NEWLINE,
        first_nl_from(s, pos) < s.len() ==> s[first_nl_from(s, pos)] == NEWLINE,
    decreases s.len() - pos,
{
    if pos < s.len() && s[pos] != NEWLINE {
        lemma_first_nl_from(s, pos + 1);
    }
}

/// The spans of the lines of `s` that start at or after `pos`, assuming
/// `pos` is the start of a line (or the end of the buffer).
pub open spec fn spans_from(s: Seq<u8>, pos: int) -> Seq<(int, int)>
    decreases s.len() - pos + 1,
    when 0 <= pos
    via spans_from_dec
{
    if pos >= s.len() {
        Seq::empty()
    } else {
        seq![(pos, first_nl_from(s, pos))] + spans_from(s, first_nl_from(s, pos) + 1)
    }
}

#[via_fn]
proof fn spans_from_dec(s: Seq<u8>, pos: int) {
    if 0 <= pos < s.len() {
        lemma_first_nl_from(s, pos);
    }
}

/// The line spans of the whole buffer.
pub open spec fn line_spans(s: Seq<u8>) -> Seq<(int, int)> {
    spans_from(s, 0)
}

/// The number of lines of `s`, as `str::lines().count()` would report it.
pub open spec fn line_count(s: Seq<u8>) -> int {
    line_spans(s).len() as int
}

/// Number of newline bytes of `s` in the index range `[lo, hi)`.
pub open spec fn nl_count_range(s: Seq<u8>, lo: int, hi: int) -> int
    decreases hi - lo,
{
    if lo >= hi {
        0
    } else {
        nl_count_range(s, lo, hi - 1) + if s[hi - 1] == NEWLINE {
            1int
        } else {
            0int
        }
    }
}

pub proof fn lemma_nl_count_nonneg(s: Seq<u8>, lo: int, hi: int)
    ensures
        0 <= nl_count_range(s, lo, hi),
    decreases hi - lo,
{
    if lo < hi {
        lemma_nl_count_nonneg(s, lo, hi - 1);
    }
}

/// Counting newlines splits over any midpoint.
pub proof fn lemma_nl_count_split(s: Seq<u8>, lo: int, mid: int, hi: int)
    requires
        lo <= mid <= hi,
    ensures
        nl_count_range(s, lo, hi) == nl_count_range(s, lo, mid) + nl_count_range(s, mid, hi),
    decreases hi - mid,
{
    if mid < hi {
        lemma_nl_count_split(s, lo, mid, hi - 1);
    }
}

/// A run without newline bytes counts zero.
pub proof fn lemma_nl_count_zero(s: Seq<u8>, lo: int, hi: int)
    requires
        forall|t: int| lo <= t < hi ==> s[t] != NEWLINE,
    ensures
        nl_count_range(s, lo, hi) == 0,
    decreases hi - lo,
{
    if lo < hi {
        lemma_nl_count_zero(s, lo, hi - 1);
    }
}

/// Newline counting commutes with taking a subrange.
pub proof fn lemma_nl_count_subrange(s: Seq<u8>, a: int, b: int, lo: int, hi: int)
    requires
        0 <= a <= b <= s.len(),
        0 <= lo <= hi <= b - a,
    ensures
        nl_count_range(s.subrange(a, b), lo, hi) == nl_count_range(s, a + lo, a + hi),
    decreases hi - lo,
{
    if lo < hi {
        lemma_nl_count_subrange(s, a, b, lo, hi - 1);
        assert(s.subrange(a, b)[hi - 1] == s[a + hi - 1]);
    }
}

/// Structural facts about the span list: spans are ordered, line bytes hold
/// no newline, and every span but the last is followed by a newline byte.
#[verifier::rlimit(50)]
pub proof fn lemma_spans_from_wf(s: Seq<u8>, pos: int)
    requires
        0 <= pos,
    ensures
        forall|i: int|
            0 <= i < spans_from(s, pos).len() ==> {
                let sp = #[trigger] spans_from(s, pos)[i];
                pos <= sp.0 <= sp.1 <= s.len() && sp.1 == first_nl_from(s, sp.0)
            },
        spans_from(s, pos).len() > 0 ==> spans_from(s, pos)[0].0 == pos,
        forall|i: int|
            0 < i < spans_from(s, pos).len() ==> (#[trigger] spans_from(s, pos)[i]).0
                == spans_from(s, pos)[i - 1].1 + 1,
    decreases s.len() - pos + 1,
{
    if pos < s.len() {
        lemma_first_nl_from(s, pos);
        let e = first_nl_from(s, pos);
        lemma_spans_from_wf(s, e + 1);
        let rest = spans_from(s, e + 1);
        let whole = spans_from(s, pos);
        assert(whole == seq![(pos, e)] + rest);
        assert(whole[0] == (pos, e));
        assert forall|i: int| 0 < i < whole.len() implies #[trigger] whole[i] == rest[i - 1] by {
        }
        assert forall|i: int| 0 < i < whole.len() implies (#[trigger] whole[i]).0 == whole[i
            - 1].1 + 1 by {
            if i == 1 {
                assert(rest[0].0 == e + 1);
            } else {
                assert(rest[i - 1].0 == rest[i - 2].1 + 1);
            }
        }
    }
}

/// The span count equals the newline count from `pos`, plus one when the
/// buffer does not end in a newline.
pub proof fn lemma_spans_from_count(s: Seq<u8>, pos: int)
    requires
        0 <= pos <= s.len(),
    ensures
        spans_from(s, pos).len() == nl_count_range(s, pos, s.len() as int) + if pos < s.len()
            && s[s.len() - 1] != NEWLINE {
            1int
        } else {
            0int
        },
    decreases s.len() - pos,
{
    if pos < s.len() {
        lemma_first_nl_from(s, pos);
        let e = first_nl_from(s, pos);
        lemma_nl_count_zero(s, pos, e);
        if e == s.len() {
            lemma_nl_count_split(s, pos, e, s.len() as int);
            assert(spans_from(s, e + 1).len() == 0);
            assert(s[s.len() - 1] != NEWLINE);
        } else {
            lemma_spans_from_count(s, e + 1);
            lemma_nl_count_split(s, pos, e, e + 1);
            lemma_nl_count_split(s, pos, e + 1, s.len() as int);
            if e + 1 == s.len() {
                assert(s[s.len() - 1] == NEWLINE);
            }
        }
    }
}

/// `first_nl_from` is pinned down by a newline-free run ending at a newline
/// or at the end of the buffer.
pub proof fn lemma_first_nl_from_unique(s: Seq<u8>, pos: int, e: int)
    requires
        0 <= pos <= e <= s.len(),
        forall|t: int| pos <= t < e ==> s[t] != NEWLINE,
        e == s.len() || s[e] == NEWLINE,
    ensures
        first_nl_from(s, pos) == e,
    decreases e - pos,
{
    if pos < e {
        lemma_first_nl_from_unique(s, pos + 1, e);
    }
}

pub proof fn lemma_nl_count_le_width(s: Seq<u8>, lo: int, hi: int)
    ensures
        nl_count_range(s, lo, hi) <= if hi >= lo {
            hi - lo
        } else {
            0int
        },
    decreases hi - lo,
{
    if lo < hi {
        lemma_nl_count_le_width(s, lo, hi - 1);
    }
}

/// The bytes of lines `i..j` form a window with fewer than `j - i` newline
/// bytes, hence at most `j - i` lines.
#[verifier::rlimit(100)]
#[verifier::spinoff_prover]
pub proof fn lemma_window_nl_count(s: Seq<u8>, i: int, j: int)
    requires
        0 <= i < j <= line_spans(s).len(),
    ensures
        nl_count_range(s, line_spans(s)[i].0, line_spans(s)[j - 1].1) == j - 1 - i,
    decreases j - i,
{
    let ss = line_spans(s);
    lemma_spans_from_wf(s, 0);
    if j == i + 1 {
        lemma_first_nl_from(s, ss[i].0);
        lemma_nl_count_zero(s, ss[i].0, ss[i].1);
    } else {
        lemma_window_nl_count(s, i, j - 1);
        lemma_first_nl_from(s, ss[j - 1].0);
        lemma_first_nl_from(s, ss[j - 2].0);
        assert(ss[j - 1].0 == ss[j - 2].1 + 1);
        assert(s[ss[j - 2].1] == NEWLINE);
        lemma_nl_count_zero(s, ss[j - 1].0, ss[j - 1].1);
        lemma_nl_count_split(s, ss[i].0, ss[j - 2].1, ss[j - 2].1 + 1);
        lemma_nl_count_split(s, ss[i].0, ss[j - 2].1 + 1, ss[j - 1].1);
    }
}

/// A window of `j - i` whole lines holds at most `j - i` lines.
/// The line count of a buffer is bounded by its newline count plus one.
pub proof fn lemma_line_count_from_nl(w: Seq<u8>, k: int)
    requires
        nl_count_range(w, 0, w.len() as int) == k,
    ensures
        line_count(w) <= k + 1,
{
    lemma_spans_from_count(w, 0);
}

/// Span starts never move backwards.
pub proof fn lemma_spans_monotonic(s: Seq<u8>, k1: int, k2: int)
    requires
        0 <= k1 <= k2 < line_spans(s).len(),
    ensures
        line_spans(s)[k1].0 <= line_spans(s)[k2].0,
    decreases k2 - k1,
{
    lemma_spans_from_wf(s, 0);
    if k1 < k2 {
        lemma_spans_monotonic(s, k1, k2 - 1);
        assert(line_spans(s)[k2].0 == line_spans(s)[k2 - 1].1 + 1);
    }
}

/// A window of `j - i` whole lines holds at most `j - i` lines.
#[verifier::rlimit(100)]
#[verifier::spinoff_prover]
pub proof fn lemma_window_line_count(s: Seq<u8>, i: int, j: int)
    requires
        0 <= i < j <= line_spans(s).len(),
    ensures
        line_count(s.subrange(line_spans(s)[i].0, line_spans(s)[j - 1].1)) <= j - i,
{
    let ss = line_spans(s);
    let a = ss[i].0;
    let b = ss[j - 1].1;
    assert(0 <= a <= b <= s.len()) by {
        lemma_spans_from_wf(s, 0);
        lemma_spans_monotonic(s, i, j - 1);
    }
    let w = s.subrange(a, b);
    assert(nl_count_range(s, a, b) == j - 1 - i) by {
        lemma_window_nl_count(s, i, j);
    }
    assert(nl_count_range(w, 0, w.len() as int) == j - 1 - i) by {
        lemma_nl_count_subrange(s, a, b, 0, b - a);
    }
    lemma_line_count_from_nl(w, j - 1 - i);
}

/// A subrange that ends on a byte other than newline has at most as many
/// lines as the buffer it came from.
pub proof fn lemma_piece_line_count(s: Seq<u8>, a: int, e: int)
    requires
        0 <= a <= e <= s.len(),
        e > a ==> s[e - 1] != NEWLINE,
    ensures
        line_count(s.subrange(a, e)) <= line_count(s),
{
    let p = s.subrange(a, e);
    lemma_spans_from_count(p, 0);
    lemma_spans_from_count(s, 0);
    lemma_nl_count_subrange(s, a, e, 0, e - a);
    lemma_nl_count_split(s, 0, a, e);
    lemma_nl_count_split(s, 0, e, s.len() as int);
    lemma_nl_count_nonneg(s, 0, a);
    lemma_nl_count_nonneg(s, e, s.len() as int);
    if e > a {
        assert(p.len() > 0 && p[p.len() - 1] != NEWLINE);
        if s[s.len() - 1] == NEWLINE {
            assert(e < s.len());
            lemma_nl_count_split(s, e, s.len() - 1, s.len() as int);
            lemma_nl_count_nonneg(s, e, s.len() - 1);
        }
    }
}

/// Any subrange has at most one line more than its buffer.
pub proof fn lemma_subrange_line_count(s: Seq<u8>, a: int, b: int)
    requires
        0 <= a <= b <= s.len(),
    ensures
        line_count(s.subrange(a, b)) <= line_count(s) + 1,
{
    let sub = s.subrange(a, b);
    lemma_spans_from_count(sub, 0);
    lemma_spans_from_count(s, 0);
    lemma_nl_count_subrange(s, a, b, 0, b - a);
    lemma_nl_count_split(s, 0, a, b);
    lemma_nl_count_split(s, 0, b, s.len() as int);
    lemma_nl_count_nonneg(s, 0, a);
    lemma_nl_count_nonneg(s, b, s.len() as int);
}

/// Pairs of usize spans, as the mathematical span list.
pub open spec fn spans_ints(v: Seq<(usize, usize)>) -> Seq<(int, int)> {
    v.map_values(|p: (usize, usize)| (p.0 as int, p.1 as int))
}

/// The spans of every line of `s`, start and end, the end excluding the
/// newline byte itself.
pub fn line_index(s: &[u8]) -> (r: Vec<(usize, usize)>)
    ensures
        spans_ints(r@) == line_spans(s@),
{
    let mut out: Vec<(usize, usize)> = Vec::new();
    let mut pos: usize = 0;
    proof {
        assert(spans_ints(out@) =~= Seq::<(int, int)>::empty());
        assert(spans_ints(out@) + spans_from(s@, 0) =~= spans_from(s@, 0));
    }
    while pos < s.len()
        invariant
            0 <= pos <= s@.len(),
            line_spans(s@) == spans_ints(out@) + spans_from(s@, pos as int),
        decreases s@.len() - pos,
    {
        let mut e: usize = pos;
        while e < s.len() && s[e] != NEWLINE
            invariant
                pos <= e <= s@.len(),
                forall|t: int| pos <= t < e ==> s@[t] != NEWLINE,
            decreases s@.len() - e,
        {
            e += 1;
        }
        proof {
            lemma_first_nl_from_unique(s@, pos as int, e as int);
        }
        let ghost prev = out@;
        out.push((pos, e));
        proof {
            assert(spans_ints(out@) =~= spans_ints(prev) + seq![(pos as int, e as int)]);
            assert(spans_from(s@, pos as int) == seq![(pos as int, e as int)] + spans_from(
                s@,
                e + 1,
            ));
            assert(spans_ints(prev) + spans_from(s@, pos as int) =~= spans_ints(out@)
                + spans_from(s@, e + 1));
        }
        if e >= s.len() {
            proof {
                assert(spans_from(s@, e + 1) =~= Seq::<(int, int)>::empty());
                assert(spans_from(s@, s@.len() as int) =~= Seq::<(int, int)>::empty());
            }
            pos = s.len();
        } else {
            pos = e + 1;
        }
    }
    proof {
        assert(spans_ints(out@) + spans_from(s@, pos as int) =~= spans_ints(out@));
    }
    out
}

/// Number of lines of `s`, counted as `str::lines().count()` counts them.
pub fn count_lines(s: &[u8]) -> (r: usize)
    ensures
        r as int == line_count(s@),
{
    let mut cnt: usize = 0;
    let mut i: usize = 0;
    while i < s.len()
        invariant
            0 <= i <= s@.len(),
            cnt as int == nl_count_range(s@, 0, i as int),
            cnt <= i,
        decreases s@.len() - i,
    {
        proof {
            lemma_nl_count_le_width(s@, 0, i + 1);
            lemma_nl_count_nonneg(s@, 0, i as int);
        }
        if s[i] == NEWLINE {
            cnt += 1;
        }
        i += 1;
    }
    proof {
        lemma_spans_from_count(s@, 0);
    }
    if s.len() > 0 && s[s.len() - 1] != NEWLINE {
        proof {
            lemma_nl_count_split(s@, 0, s@.len() - 1, s@.len() as int);
            lemma_nl_count_le_width(s@, 0, s@.len() - 1);
            lemma_nl_count_nonneg(s@, 0, s@.len() - 1);
        }
        cnt + 1
    } else {
        cnt
    }
}

} // verus!
