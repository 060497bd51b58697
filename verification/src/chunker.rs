//! Splitting a source file into chunks.
//!
//! The fallback splitter walks the file in windows of at most `MAX_LINES`
//! lines with a fixed stride, clips each window to `MAX_CHARS` bytes, and
//! splits over-long windows at UTF-8-safe byte boundaries. Its output is
//! pinned, byte for byte, to the spec function [`spec_simple_chunks`], so
//! chunking is a pure function of the file content and path.

use vstd::prelude::*;
use crate::NEWLINE;
use crate::bytes::{push_all, sub_vec};
use crate::lines::{
    line_spans, line_count, line_index, spans_ints, nl_count_range, lemma_spans_from_wf,
    lemma_spans_monotonic, lemma_window_line_count, lemma_piece_line_count,
    lemma_nl_count_subrange, lemma_spans_from_count, lemma_nl_count_nonneg,
    lemma_nl_count_le_width, lemma_nl_count_split, lemma_nl_count_zero,
};

verus! {

/// Largest number of lines a window may hold.
pub const MAX_LINES: usize = 75;
/// Largest number of bytes a chunk may hold.
pub const MAX_CHARS: usize = 2000;
/// Lines shared between consecutive windows.
pub const OVERLAP_LINES: usize = 10;
/// Distance between the starts of consecutive windows.
pub const STRIDE_LINES: usize = MAX_LINES - OVERLAP_LINES;
/// Cap on the byte length of a file accepted by the chunker; keeps every
/// line-number computation inside `usize` on any machine.
pub const MAX_CONTENT: usize = 0x3fff_ffff;

/// The syntactic species of a chunk.
#[derive(Clone, Copy, Debug, PartialEq, Eq, Structural)]
pub enum ChunkType {
    Function,
    Class,
    Interface,
    TypeAlias,
    Block,
    Other,
}

/// A contiguous piece of a source file, the unit of embedding and retrieval.
pub struct Chunk {
    /// The bytes of the piece.
    pub content: Vec<u8>,
    /// First line of the piece, 0-based.
    pub start_line: usize,
    /// One past the last line of the piece.
    pub end_line: usize,
    /// Syntactic species.
    pub chunk_type: ChunkType,
    /// Human-readable crumbs naming the lexical path to the piece.
    pub context: Vec<Vec<u8>>,
    /// True for the synthetic file-summary chunk.
    pub is_anchor: bool,
}

/// The mathematical image of a [`Chunk`].
#[verifier::ext_equal]
pub ghost struct ChunkView {
    pub content: Seq<u8>,
    pub start_line: int,
    pub end_line: int,
    pub chunk_type: ChunkType,
    pub context: Seq<Seq<u8>>,
    pub is_anchor: bool,
}

impl View for Chunk {
    type V = ChunkView;

    open spec fn view(&self) -> ChunkView {
        ChunkView {
            content: self.content@,
            start_line: self.start_line as int,
            end_line: self.end_line as int,
            chunk_type: self.chunk_type,
            context: self.context.deep_view(),
            is_anchor: self.is_anchor,
        }
    }
}

/// The views of a chunk list.
pub open spec fn chunk_views(s: Seq<Chunk>) -> Seq<ChunkView> {
    s.map_values(|c: Chunk| c.view())
}

/// ASCII whitespace, the byte-level reading of `str::trim`.
pub open spec fn spec_is_ws(b: u8) -> bool {
    b == 32 || b == 9 || b == 10 || b == 11 || b == 12 || b == 13
}

pub fn is_ws(b: u8) -> (r: bool)
    ensures
        r == spec_is_ws(b),
{
    b == 32 || b == 9 || b == 10 || b == 11 || b == 12 || b == 13
}

/// Index of the first non-whitespace byte at or after `pos`, or `s.len()`.
pub open spec fn first_non_ws_from(s: Seq<u8>, pos: int) -> int
    decreases s.len() - pos,
{
    if pos < 0 || pos >= s.len() {
        s.len() as int
    } else if !spec_is_ws(s[pos]) {
        pos
    } else {
        first_non_ws_from(s, pos + 1)
    }
}

pub proof fn lemma_first_non_ws_from(s: Seq<u8>, pos: int)
    requires
        0 <= pos <= s.len(),
    ensures
        pos <= first_non_ws_from(s, pos) <= s.len(),
        forall|t: int| pos <= t < first_non_ws_from(s, pos) ==> spec_is_ws(s[t]),
        first_non_ws_from(s, pos) < s.len() ==> !spec_is_ws(s[first_non_ws_from(s, pos)]),
    decreases s.len() - pos,
{
    if pos < s.len() && spec_is_ws(s[pos]) {
        lemma_first_non_ws_from(s, pos + 1);
    }
}

pub proof fn lemma_first_non_ws_from_unique(s: Seq<u8>, pos: int, e: int)
    requires
        0 <= pos <= e <= s.len(),
        forall|t: int| pos <= t < e ==> spec_is_ws(s[t]),
        e == s.len() || !spec_is_ws(s[e]),
    ensures
        first_non_ws_from(s, pos) == e,
    decreases e - pos,
{
    if pos < e {
        lemma_first_non_ws_from_unique(s, pos + 1, e);
    }
}

/// A byte on which a UTF-8 encoded buffer may be split: anything but a
/// continuation byte.
pub open spec fn spec_is_boundary(b: u8) -> bool {
    b < 128 || b >= 192
}

/// The nearest UTF-8-safe split point at or below `i`.
pub open spec fn floor_boundary(s: Seq<u8>, i: int) -> int
    decreases i,
{
    if i <= 0 {
        0
    } else if i >= s.len() {
        s.len() as int
    } else if spec_is_boundary(s[i]) {
        i
    } else {
        floor_boundary(s, i - 1)
    }
}

pub proof fn lemma_floor_boundary(s: Seq<u8>, i: int)
    requires
        0 <= i <= s.len(),
    ensures
        0 <= floor_boundary(s, i) <= i,
    decreases i,
{
    if i > 0 && i < s.len() && !spec_is_boundary(s[i]) {
        lemma_floor_boundary(s, i - 1);
    }
}

/// End of the piece after trailing whitespace in `[lo, hi)` is dropped.
pub open spec fn trim_end_from(s: Seq<u8>, lo: int, hi: int) -> int
    decreases hi - lo,
{
    if hi <= lo {
        lo
    } else if spec_is_ws(s[hi - 1]) {
        trim_end_from(s, lo, hi - 1)
    } else {
        hi
    }
}

pub proof fn lemma_trim_end_from(s: Seq<u8>, lo: int, hi: int)
    requires
        0 <= lo <= hi <= s.len(),
    ensures
        lo <= trim_end_from(s, lo, hi) <= hi,
        trim_end_from(s, lo, hi) > lo ==> !spec_is_ws(s[trim_end_from(s, lo, hi) - 1]),
        lo < hi && !spec_is_ws(s[lo]) ==> trim_end_from(s, lo, hi) > lo,
    decreases hi - lo,
{
    if hi > lo && spec_is_ws(s[hi - 1]) {
        lemma_trim_end_from(s, lo, hi - 1);
    }
}

/// The byte position where an over-long piece is cut: `MAX_CHARS` bytes past
/// `start`, pulled back to a UTF-8 boundary when one is in reach.
pub open spec fn spec_cut(s: Seq<u8>, start: int) -> int {
    if start + MAX_CHARS >= s.len() {
        s.len() as int
    } else {
        let fb = floor_boundary(s, start + MAX_CHARS);
        if fb > start {
            fb
        } else {
            start + MAX_CHARS
        }
    }
}

pub proof fn lemma_spec_cut(s: Seq<u8>, start: int)
    requires
        0 <= start < s.len(),
    ensures
        start < spec_cut(s, start) <= s.len(),
        spec_cut(s, start) - start <= MAX_CHARS,
{
    if start + MAX_CHARS < s.len() {
        lemma_floor_boundary(s, start + MAX_CHARS);
    }
}

/// The pieces an over-long run is cut into: drop leading whitespace, take at
/// most `MAX_CHARS` bytes to a safe boundary, drop trailing whitespace, and
/// go on after the cut. Line numbers advance by each piece's line count.
pub open spec fn spec_char_split(
    s: Seq<u8>,
    from: int,
    ln: int,
    ty: ChunkType,
    ctx: Seq<Seq<u8>>,
) -> Seq<ChunkView>
    decreases s.len() - from + 1,
    when 0 <= from
    via spec_char_split_dec
{
    let start = first_non_ws_from(s, from);
    if start >= s.len() {
        Seq::empty()
    } else {
        let cut = spec_cut(s, start);
        let e = trim_end_from(s, start, cut);
        let piece = s.subrange(start, e);
        seq![
            ChunkView {
                content: piece,
                start_line: ln,
                end_line: ln + line_count(piece),
                chunk_type: ty,
                context: ctx,
                is_anchor: false,
            },
        ] + spec_char_split(s, cut, ln + line_count(piece), ty, ctx)
    }
}

#[via_fn]
proof fn spec_char_split_dec(s: Seq<u8>, from: int, ln: int, ty: ChunkType, ctx: Seq<Seq<u8>>) {
    if 0 <= from && from <= s.len() {
        lemma_first_non_ws_from(s, from);
        let start = first_non_ws_from(s, from);
        if start < s.len() {
            lemma_spec_cut(s, start);
        }
    }
}

/// One past the last line of the window that starts at line `i`.
pub open spec fn spec_window_j(s: Seq<u8>, i: int) -> int {
    if i + MAX_LINES <= line_count(s) {
        i + MAX_LINES
    } else {
        line_count(s)
    }
}

/// The bytes of the window that starts at line `i`.
pub open spec fn spec_window_bytes(s: Seq<u8>, i: int) -> Seq<u8> {
    s.subrange(line_spans(s)[i].0, line_spans(s)[spec_window_j(s, i) - 1].1)
}

/// The chunks one window yields: its bytes as one block chunk when they fit
/// in `MAX_CHARS`, else its char-split pieces.
pub open spec fn spec_window_part(s: Seq<u8>, i: int, ctx: Seq<Seq<u8>>) -> Seq<ChunkView> {
    let w = spec_window_bytes(s, i);
    if w.len() <= MAX_CHARS {
        seq![
            ChunkView {
                content: w,
                start_line: i,
                end_line: spec_window_j(s, i),
                chunk_type: ChunkType::Block,
                context: ctx,
                is_anchor: false,
            },
        ]
    } else {
        spec_char_split(w, 0, i, ChunkType::Block, ctx)
    }
}

/// The chunks of the sliding-window fallback, from the window starting at
/// line `i` on.
pub open spec fn spec_windows(s: Seq<u8>, i: int, ctx: Seq<Seq<u8>>) -> Seq<ChunkView>
    decreases line_count(s) + STRIDE_LINES - i,
    when 0 <= i
{
    if i >= line_count(s) {
        Seq::empty()
    } else {
        spec_window_part(s, i, ctx) + spec_windows(s, i + STRIDE_LINES, ctx)
    }
}

/// The crumb `File: {path}` that names the source file in a chunk's context.
pub open spec fn spec_file_crumb(path: Seq<u8>) -> Seq<u8> {
    seq![70u8, 105u8, 108u8, 101u8, 58u8, 32u8] + path
}

/// The full fallback chunking of a file.
pub open spec fn spec_simple_chunks(s: Seq<u8>, path: Seq<u8>) -> Seq<ChunkView> {
    spec_windows(s, 0, seq![spec_file_crumb(path)])
}

/// Builds the crumb `File: {path}`.
pub fn file_crumb(path: &[u8]) -> (r: Vec<u8>)
    ensures
        r@ == spec_file_crumb(path@),
{
    let mut v: Vec<u8> = Vec::new();
    v.push(70);
    v.push(105);
    v.push(108);
    v.push(101);
    v.push(58);
    v.push(32);
    assert(v@ =~= seq![70u8, 105u8, 108u8, 101u8, 58u8, 32u8]);
    push_all(&mut v, path);
    v
}

/// Clones a context stack, keeping its mathematical image.
pub fn clone_context(ctx: &Vec<Vec<u8>>) -> (r: Vec<Vec<u8>>)
    ensures
        r.deep_view() == ctx.deep_view(),
{
    let mut r: Vec<Vec<u8>> = Vec::new();
    let mut i: usize = 0;
    while i < ctx.len()
        invariant
            0 <= i <= ctx@.len(),
            r.deep_view() == ctx.deep_view().take(i as int),
        decreases ctx@.len() - i,
    {
        let ghost prev = r.deep_view();
        let item: Vec<u8> = sub_vec(ctx[i].as_slice(), 0, ctx[i].len());
        assert(item@ == ctx@[i as int]@);
        r.push(item);
        proof {
            assert(r.deep_view() =~~= prev.push(ctx.deep_view()[i as int]));
            assert(r.deep_view() =~~= ctx.deep_view().take(i + 1));
        }
        i += 1;
    }
    proof {
        assert(ctx.deep_view().take(ctx@.len() as int) =~= ctx.deep_view());
    }
    r
}

/// Lines of `s@` in `[lo, hi)` seen as a buffer of their own.
pub fn count_lines_range(s: &[u8], lo: usize, hi: usize) -> (r: usize)
    requires
        0 <= lo <= hi <= s@.len(),
    ensures
        r as int == line_count(s@.subrange(lo as int, hi as int)),
        r <= hi - lo,
{
    let mut cnt: usize = 0;
    let mut i: usize = lo;
    while i < hi
        invariant
            lo <= i <= hi <= s@.len(),
            cnt as int == nl_count_range(s@, lo as int, i as int),
            cnt <= i - lo,
        decreases hi - i,
    {
        proof {
            lemma_nl_count_nonneg(s@, lo as int, i as int);
            lemma_nl_count_le_width(s@, lo as int, i + 1);
        }
        if s[i] == NEWLINE {
            cnt += 1;
        }
        i += 1;
    }
    let sub = vstd::slice::slice_subrange(s, lo, hi);
    proof {
        lemma_nl_count_subrange(s@, lo as int, hi as int, 0, hi - lo);
        lemma_spans_from_count(sub@, 0);
        lemma_nl_count_nonneg(s@, lo as int, hi as int);
    }
    if hi > lo && sub[hi - lo - 1] != NEWLINE {
        proof {
            lemma_nl_count_split(s@, lo as int, hi - 1, hi as int);
            lemma_nl_count_le_width(s@, lo as int, hi - 1);
            lemma_nl_count_nonneg(s@, lo as int, hi - 1);
        }
        cnt + 1
    } else {
        cnt
    }
}

fn is_boundary(b: u8) -> (r: bool)
    ensures
        r == spec_is_boundary(b),
{
    b < 128 || b >= 192
}

/// Splits the bytes of `w` into pieces of at most `MAX_CHARS` bytes, cut at
/// UTF-8-safe positions and trimmed of surrounding whitespace, and appends
/// them to `chunks`. Line numbers start at `ln0` and advance by each piece's
/// line count.
fn char_split_into(
    chunks: &mut Vec<Chunk>,
    w: &[u8],
    ln0: usize,
    ty: ChunkType,
    ctx: &Vec<Vec<u8>>,
)
    requires
        ln0 + w@.len() <= 0xffff_fffe,
    ensures
        chunk_views(final(chunks)@) == chunk_views(old(chunks)@) + spec_char_split(
            w@,
            0,
            ln0 as int,
            ty,
            ctx.deep_view(),
        ),
{
    let ghost total = chunk_views(old(chunks)@) + spec_char_split(
        w@,
        0,
        ln0 as int,
        ty,
        ctx.deep_view(),
    );
    let mut from: usize = 0;
    let mut ln: usize = ln0;
    loop
        invariant_except_break
            0 <= from <= w@.len(),
            ln0 + w@.len() <= 0xffff_fffe,
            ln <= ln0 + from,
            chunk_views(chunks@) + spec_char_split(w@, from as int, ln as int, ty,
                ctx.deep_view()) == total,
        ensures
            chunk_views(chunks@) == total,
        decreases w@.len() - from,
    {
        let mut start: usize = from;
        while start < w.len() && is_ws(w[start])
            invariant
                from <= start <= w@.len(),
                forall|t: int| from <= t < start ==> spec_is_ws(w@[t]),
            decreases w@.len() - start,
        {
            start += 1;
        }
        proof {
            lemma_first_non_ws_from_unique(w@, from as int, start as int);
        }
        if start >= w.len() {
            proof {
                assert(spec_char_split(w@, from as int, ln as int, ty, ctx.deep_view())
                    =~= Seq::<ChunkView>::empty());
                assert(chunk_views(chunks@) + Seq::<ChunkView>::empty() =~= chunk_views(
                    chunks@,
                ));
            }
            break;
        }
        let cut: usize;
        if w.len() - start <= MAX_CHARS {
            cut = w.len();
            assert(start + MAX_CHARS >= w@.len());
        } else {
            assert(start + MAX_CHARS < w@.len());
            let mut fb: usize = start + MAX_CHARS;
            while fb > 0 && !is_boundary(w[fb])
                invariant
                    0 <= fb < w@.len(),
                    floor_boundary(w@, start + MAX_CHARS) == floor_boundary(w@, fb as int),
                decreases fb,
            {
                fb -= 1;
            }
            proof {
                assert(floor_boundary(w@, fb as int) == fb as int);
            }
            cut = if fb > start {
                fb
            } else {
                start + MAX_CHARS
            };
        }
        proof {
            assert(cut == spec_cut(w@, start as int));
            lemma_spec_cut(w@, start as int);
        }
        let mut e: usize = cut;
        while e > start && is_ws(w[e - 1])
            invariant
                start <= e <= cut,
                cut <= w@.len(),
                trim_end_from(w@, start as int, cut as int) == trim_end_from(w@, start as int,
                    e as int),
            decreases e,
        {
            e -= 1;
        }
        proof {
            assert(e as int == trim_end_from(w@, start as int, cut as int));
            lemma_trim_end_from(w@, start as int, cut as int);
        }
        let lines = count_lines_range(w, start, e);
        let piece = sub_vec(w, start, e);
        let ghost prev = chunks@;
        let c = Chunk {
            content: piece,
            start_line: ln,
            end_line: ln + lines,
            chunk_type: ty,
            context: clone_context(ctx),
            is_anchor: false,
        };
        let ghost cv = c@;
        chunks.push(c);
        proof {
            assert(chunk_views(chunks@) =~= chunk_views(prev).push(cv));
            let ghost spec_head = ChunkView {
                content: w@.subrange(start as int, e as int),
                start_line: ln as int,
                end_line: ln + line_count(w@.subrange(start as int, e as int)),
                chunk_type: ty,
                context: ctx.deep_view(),
                is_anchor: false,
            };
            assert(cv =~= spec_head);
            assert(spec_char_split(w@, from as int, ln as int, ty, ctx.deep_view())
                == seq![spec_head] + spec_char_split(w@, cut as int, (ln + lines) as int, ty,
                ctx.deep_view()));
            assert(chunk_views(prev) + (seq![spec_head] + spec_char_split(w@, cut as int, (ln
                + lines) as int, ty, ctx.deep_view())) =~= chunk_views(chunks@)
                + spec_char_split(w@, cut as int, (ln + lines) as int, ty, ctx.deep_view()));
        }
        from = cut;
        ln = ln + lines;
    }
}

/// The byte bounds `(a, b)` and end line `j` of the window at line `i`.
#[verifier::rlimit(60)]
fn window_bounds(content: &[u8], spans: &Vec<(usize, usize)>, i: usize) -> (r: (
    usize,
    usize,
    usize,
))
    requires
        spans_ints(spans@) == line_spans(content@),
        0 <= (i as int) < line_count(content@),
    ensures
        r.2 as int == spec_window_j(content@, i as int),
        i < r.2 <= spans@.len(),
        r.0 as int == line_spans(content@)[i as int].0,
        r.1 as int == line_spans(content@)[r.2 - 1].1,
        0 <= r.0 <= r.1 <= content@.len(),
{
    let n = spans.len();
    proof {
        assert(n as int == line_count(content@));
    }
    let j: usize = if n >= MAX_LINES && i <= n - MAX_LINES {
        i + MAX_LINES
    } else {
        n
    };
    proof {
        lemma_spans_from_wf(content@, 0);
        lemma_spans_monotonic(content@, i as int, j - 1);
        assert(spans_ints(spans@)[i as int] == (spans@[i as int].0 as int,
            spans@[i as int].1 as int));
        assert(spans_ints(spans@)[j - 1] == (spans@[j - 1].0 as int, spans@[j - 1].1 as int));
    }
    let a = spans[i].0;
    let b = spans[j - 1].1;
    (a, b, j)
}

/// Emits the chunks of the single window that starts at line `i`.
#[verifier::rlimit(100)]
#[verifier::spinoff_prover]
fn emit_window(
    chunks: &mut Vec<Chunk>,
    content: &[u8],
    spans: &Vec<(usize, usize)>,
    i: usize,
    ctx: &Vec<Vec<u8>>,
)
    requires
        spans_ints(spans@) == line_spans(content@),
        content@.len() <= MAX_CONTENT,
        0 <= (i as int) < line_count(content@),
    ensures
        chunk_views(final(chunks)@) == chunk_views(old(chunks)@) + spec_window_part(
            content@,
            i as int,
            ctx.deep_view(),
        ),
{
    let (a, b, j) = window_bounds(content, spans, i);
    let w = sub_vec(content, a, b);
    let ghost spec_w = spec_window_bytes(content@, i as int);
    assert(w@ == spec_w);
    let ghost prev = chunks@;
    if w.len() <= MAX_CHARS {
        let c = Chunk {
            content: w,
            start_line: i,
            end_line: j,
            chunk_type: ChunkType::Block,
            context: clone_context(ctx),
            is_anchor: false,
        };
        let ghost cv = c@;
        chunks.push(c);
        proof {
            let spec_head = ChunkView {
                content: spec_w,
                start_line: i as int,
                end_line: j as int,
                chunk_type: ChunkType::Block,
                context: ctx.deep_view(),
                is_anchor: false,
            };
            assert(spec_window_part(content@, i as int, ctx.deep_view()) == seq![spec_head]);
            assert(cv =~= spec_head);
            assert(chunk_views(chunks@) =~= chunk_views(prev).push(cv));
            assert(chunk_views(prev).push(cv) =~= chunk_views(prev) + seq![spec_head]);
        }
    } else {
        proof {
            lemma_spans_from_count(content@, 0);
            lemma_nl_count_le_width(content@, 0, content@.len() as int);
            lemma_nl_count_nonneg(content@, 0, content@.len() as int);
        }
        char_split_into(chunks, w.as_slice(), i, ChunkType::Block, ctx);
        proof {
            assert(spec_window_part(content@, i as int, ctx.deep_view()) == spec_char_split(
                spec_w,
                0,
                i as int,
                ChunkType::Block,
                ctx.deep_view(),
            ));
        }
    }
}

/// The sliding-window fallback chunker: windows of at most `MAX_LINES` lines
/// at stride `STRIDE_LINES`, each clipped to `MAX_CHARS` bytes, over-long
/// windows split at UTF-8-safe boundaries. The output is a pure function of
/// the content and path.
pub fn simple_chunk(content: &[u8], path: &[u8]) -> (r: Vec<Chunk>)
    requires
        content@.len() <= MAX_CONTENT,
    ensures
        chunk_views(r@) == spec_simple_chunks(content@, path@),
{
    let crumb = file_crumb(path);
    let mut ctx: Vec<Vec<u8>> = Vec::new();
    ctx.push(crumb);
    proof {
        assert(ctx.deep_view() =~~= seq![spec_file_crumb(path@)]);
    }
    let spans = line_index(content);
    let n = spans.len();
    proof {
        assert(n as int == line_count(content@));
        crate::lines::lemma_spans_from_count(content@, 0);
        crate::lines::lemma_nl_count_le_width(content@, 0, content@.len() as int);
        crate::lines::lemma_nl_count_nonneg(content@, 0, content@.len() as int);
    }
    let mut chunks: Vec<Chunk> = Vec::new();
    let mut i: usize = 0;
    proof {
        assert(chunk_views(chunks@) + spec_windows(content@, 0, ctx.deep_view())
            =~= spec_simple_chunks(content@, path@));
    }
    while i < n
        invariant
            spans_ints(spans@) == line_spans(content@),
            n == spans@.len(),
            n as int == line_count(content@),
            n <= content@.len() + 1,
            content@.len() <= MAX_CONTENT,
            ctx.deep_view() == seq![spec_file_crumb(path@)],
            0 <= i,
            chunk_views(chunks@) + spec_windows(content@, i as int, ctx.deep_view())
                == spec_simple_chunks(content@, path@),
        decreases n + STRIDE_LINES - i,
    {
        let ghost prev = chunks@;
        emit_window(&mut chunks, content, &spans, i, &ctx);
        proof {
            assert(spec_windows(content@, i as int, ctx.deep_view()) == spec_window_part(
                content@,
                i as int,
                ctx.deep_view(),
            ) + spec_windows(content@, i + STRIDE_LINES, ctx.deep_view()));
            assert(chunk_views(prev) + (spec_window_part(content@, i as int, ctx.deep_view())
                + spec_windows(content@, i + STRIDE_LINES, ctx.deep_view()))
                =~= chunk_views(chunks@) + spec_windows(content@, i + STRIDE_LINES,
                ctx.deep_view()));
        }
        i += STRIDE_LINES;
    }
    proof {
        assert(spec_windows(content@, i as int, ctx.deep_view()) =~= Seq::<ChunkView>::empty());
        assert(chunk_views(chunks@) + Seq::<ChunkView>::empty() =~= chunk_views(chunks@));
    }
    chunks
}

/// Every piece the char splitter yields stays within `MAX_CHARS` bytes, and
/// within the line count of the buffer it was cut from.
pub proof fn lemma_char_split_bounds(s: Seq<u8>, from: int, ln: int, ty: ChunkType, ctx: Seq<
    Seq<u8>,
>)
    requires
        0 <= from <= s.len(),
    ensures
        forall|k: int|
            0 <= k < spec_char_split(s, from, ln, ty, ctx).len() ==> {
                let cv = #[trigger] spec_char_split(s, from, ln, ty, ctx)[k];
                cv.content.len() <= MAX_CHARS && line_count(cv.content) <= line_count(s)
                    && cv.chunk_type == ty && cv.context == ctx && !cv.is_anchor
                    && cv.start_line >= ln && cv.start_line <= ln + 2 * (s.len() - from)
            },
    decreases s.len() - from + 1,
{
    lemma_first_non_ws_from(s, from);
    let start = first_non_ws_from(s, from);
    if start < s.len() {
        lemma_spec_cut(s, start);
        let cut = spec_cut(s, start);
        lemma_trim_end_from(s, start, cut);
        let e = trim_end_from(s, start, cut);
        if e > start {
            lemma_piece_line_count(s, start, e);
        } else {
            assert(s.subrange(start, e) =~= Seq::<u8>::empty());
        }
        let lc = line_count(s.subrange(start, e));
        assert(lc >= 0);
        assert(lc <= (cut - from) + 1) by {
            let piece = s.subrange(start, e);
            lemma_spans_from_count(piece, 0);
            lemma_nl_count_le_width(piece, 0, piece.len() as int);
            lemma_nl_count_nonneg(piece, 0, piece.len() as int);
        }
        lemma_char_split_bounds(s, cut, ln + lc, ty, ctx);
        let whole = spec_char_split(s, from, ln, ty, ctx);
        let rest = spec_char_split(s, cut, ln + lc, ty, ctx);
        assert forall|k: int| 0 <= k < whole.len() implies {
            let cv = #[trigger] whole[k];
            cv.content.len() <= MAX_CHARS && line_count(cv.content) <= line_count(s)
                && cv.chunk_type == ty && cv.context == ctx && !cv.is_anchor
                && cv.start_line >= ln && cv.start_line <= ln + 2 * (s.len() - from)
        } by {
            if k > 0 {
                assert(whole[k] == rest[k - 1]);
                assert(rest[k - 1].start_line <= (ln + lc) + 2 * (s.len() - cut));
            }
        }
    }
}

/// Every chunk of the fallback splitter stays within `MAX_CHARS` bytes and
/// `MAX_LINES` lines.
pub proof fn lemma_windows_bounds(s: Seq<u8>, i: int, ctx: Seq<Seq<u8>>)
    requires
        0 <= i,
    ensures
        forall|k: int|
            0 <= k < spec_windows(s, i, ctx).len() ==> {
                let cv = #[trigger] spec_windows(s, i, ctx)[k];
                cv.content.len() <= MAX_CHARS && line_count(cv.content) <= MAX_LINES
                    && cv.chunk_type == ChunkType::Block && cv.start_line <= line_count(s) + 2
                    * s.len()
            },
    decreases line_count(s) + STRIDE_LINES - i,
{
    let n = line_count(s);
    if i < n {
        let j = spec_window_j(s, i);
        let w = spec_window_bytes(s, i);
        lemma_window_line_count(s, i, j);
        lemma_spans_from_wf(s, 0);
        lemma_spans_monotonic(s, i, j - 1);
        let head = spec_window_part(s, i, ctx);
        assert forall|k: int| 0 <= k < head.len() implies {
            let cv = #[trigger] head[k];
            cv.content.len() <= MAX_CHARS && line_count(cv.content) <= MAX_LINES
                && cv.chunk_type == ChunkType::Block && cv.start_line <= line_count(s) + 2
                * s.len()
        } by {
            if w.len() <= MAX_CHARS {
            } else {
                lemma_char_split_bounds(w, 0, i, ChunkType::Block, ctx);
                assert(line_count(w) <= MAX_LINES);
                assert(w.len() <= s.len());
            }
        }
        lemma_windows_bounds(s, i + STRIDE_LINES, ctx);
        let rest = spec_windows(s, i + STRIDE_LINES, ctx);
        assert forall|k: int| 0 <= k < spec_windows(s, i, ctx).len() implies {
            let cv = #[trigger] spec_windows(s, i, ctx)[k];
            cv.content.len() <= MAX_CHARS && line_count(cv.content) <= MAX_LINES
                && cv.chunk_type == ChunkType::Block && cv.start_line <= line_count(s) + 2
                * s.len()
        } by {
            if k < head.len() {
                assert(spec_windows(s, i, ctx)[k] == head[k]);
            } else {
                assert(spec_windows(s, i, ctx)[k] == rest[k - head.len()]);
            }
        }
    }
}

/// Chunk bounds law: every chunk of the fallback splitter holds at most
/// `MAX_CHARS` bytes and at most `MAX_LINES` lines.
pub proof fn lemma_fallback_chunk_bounds(s: Seq<u8>, path: Seq<u8>)
    ensures
        forall|k: int|
            0 <= k < spec_simple_chunks(s, path).len() ==> {
                let cv = #[trigger] spec_simple_chunks(s, path)[k];
                cv.content.len() <= MAX_CHARS && line_count(cv.content) <= MAX_LINES
            },
{
    lemma_windows_bounds(s, 0, seq![spec_file_crumb(path)]);
}

/// Consecutive chunks never move backwards: ascending `start_line`, with
/// `end_line` breaking ties.
pub open spec fn chunks_ordered(cs: Seq<ChunkView>) -> bool {
    forall|k: int|
        0 <= k < cs.len() - 1 ==> ((#[trigger] cs[k]).start_line < (#[trigger] cs[
            k + 1
        ]).start_line || (cs[k].start_line == cs[k + 1].start_line && cs[k].end_line <= cs[
            k + 1
        ].end_line))
}

/// Every window of the file fits in `MAX_CHARS` bytes, so no window is
/// char-split.
pub open spec fn windows_fit(s: Seq<u8>) -> bool {
    forall|i: int|
        0 <= i < line_count(s) ==> (#[trigger] spec_window_bytes(s, i)).len() <= MAX_CHARS
}

proof fn lemma_windows_sorted(s: Seq<u8>, i: int, ctx: Seq<Seq<u8>>)
    requires
        0 <= i,
        windows_fit(s),
    ensures
        chunks_ordered(spec_windows(s, i, ctx)),
        forall|k: int|
            0 <= k < spec_windows(s, i, ctx).len() ==> (#[trigger] spec_windows(s, i,
            ctx)[k]).start_line >= i,
    decreases line_count(s) + STRIDE_LINES - i,
{
    let n = line_count(s);
    if i < n {
        lemma_windows_sorted(s, i + STRIDE_LINES, ctx);
        let whole = spec_windows(s, i, ctx);
        let rest = spec_windows(s, i + STRIDE_LINES, ctx);
        assert(whole == spec_window_part(s, i, ctx) + rest);
        assert(spec_window_part(s, i, ctx).len() == 1);
        assert(whole[0].start_line == i);
        assert forall|k: int| 0 <= k < whole.len() implies (#[trigger] whole[k]).start_line
            >= i by {
            if k > 0 {
                assert(whole[k] == rest[k - 1]);
            }
        }
        assert forall|k: int| 0 <= k < whole.len() - 1 implies (whole[k].start_line < whole[k
            + 1].start_line || (#[trigger] whole[k].start_line == #[trigger] whole[k
            + 1].start_line && whole[k].end_line <= whole[k + 1].end_line)) by {
            if k == 0 {
                assert(whole[1] == rest[0]);
                assert(rest[0].start_line >= i + STRIDE_LINES);
            } else {
                let k0 = k - 1;
                assert(0 <= k0 < rest.len() - 1);
                assert(rest[k0].start_line < rest[k0 + 1].start_line || (rest[k0].start_line
                    == rest[k0 + 1].start_line && rest[k0].end_line <= rest[k0 + 1].end_line));
                assert(whole[k] == rest[k0]);
                assert(whole[k + 1] == rest[k0 + 1]);
            }
        }
    }
}

/// Ordering law: when no window is over the byte limit, the fallback output
/// is non-decreasing in `(start_line, end_line)`. A window that is split by
/// byte count may fall out of order with the next window, so that case is
/// left out.
pub proof fn lemma_fallback_chunk_ordering(s: Seq<u8>, path: Seq<u8>)
    requires
        windows_fit(s),
    ensures
        chunks_ordered(spec_simple_chunks(s, path)),
{
    lemma_windows_sorted(s, 0, seq![spec_file_crumb(path)]);
}

/// Line `k` of `s` with surrounding whitespace dropped.
pub open spec fn spec_trim_line(s: Seq<u8>, k: int) -> Seq<u8> {
    let a = line_spans(s)[k].0;
    let b = line_spans(s)[k].1;
    let l = s.subrange(a, b);
    l.subrange(
        first_non_ws_from(l, 0),
        trim_end_from(l, first_non_ws_from(l, 0), l.len() as int),
    )
}

/// The first line at or after `k` whose trimmed bytes are non-empty.
pub open spec fn spec_header_from(s: Seq<u8>, k: int) -> Option<Seq<u8>>
    decreases line_count(s) - k,
    when 0 <= k
{
    if k >= line_count(s) {
        None
    } else if spec_trim_line(s, k).len() > 0 {
        Some(spec_trim_line(s, k))
    } else {
        spec_header_from(s, k + 1)
    }
}

/// The header line of a chunk: its first non-blank line, trimmed.
pub open spec fn spec_header(s: Seq<u8>) -> Option<Seq<u8>> {
    spec_header_from(s, 0)
}

/// A header is non-empty, free of newlines, and does not end in whitespace.
pub proof fn lemma_header_props(s: Seq<u8>, k: int, t: Seq<u8>)
    requires
        0 <= k,
        spec_header_from(s, k) == Some(t),
    ensures
        t.len() > 0,
        t.len() <= s.len(),
        !spec_is_ws(t[t.len() - 1]),
        forall|i: int| 0 <= i < t.len() ==> t[i] != NEWLINE,
    decreases line_count(s) - k,
{
    if k < line_count(s) {
        if spec_trim_line(s, k).len() > 0 {
            lemma_spans_from_wf(s, 0);
            let a = line_spans(s)[k].0;
            let b = line_spans(s)[k].1;
            let l = s.subrange(a, b);
            crate::lines::lemma_first_nl_from(s, a);
            assert(forall|i: int| 0 <= i < l.len() ==> l[i] != NEWLINE);
            lemma_first_non_ws_from(l, 0);
            let lo = first_non_ws_from(l, 0);
            lemma_trim_end_from(l, lo, l.len() as int);
        } else {
            lemma_header_props(s, k + 1, t);
        }
    }
}

/// Prefixing a newline-free header line adds exactly one line.
pub proof fn lemma_prefixed_line_count(h: Seq<u8>, w: Seq<u8>)
    requires
        h.len() > 0,
        forall|i: int| 0 <= i < h.len() ==> h[i] != NEWLINE,
    ensures
        line_count(h + seq![NEWLINE] + w) == line_count(w) + 1,
{
    let total = h + seq![NEWLINE] + w;
    lemma_spans_from_count(total, 0);
    lemma_spans_from_count(w, 0);
    let hl = h.len() as int;
    lemma_nl_count_split(total, 0, hl, hl + 1);
    lemma_nl_count_split(total, 0, hl + 1, total.len() as int);
    lemma_nl_count_zero(total, 0, hl);
    assert(total[hl] == NEWLINE);
    assert(nl_count_range(total, hl, hl + 1) == 1);
    lemma_nl_count_subrange(total, hl + 1, total.len() as int, 0, w.len() as int);
    assert(total.subrange(hl + 1, total.len() as int) =~= w);
    if w.len() > 0 {
        assert(total[total.len() - 1] == w[w.len() - 1]);
    } else {
        assert(total[total.len() - 1] == NEWLINE);
    }
}

/// The first non-blank line of `s`, trimmed; `None` when every line is
/// blank.
pub fn extract_header(s: &[u8]) -> (r: Option<Vec<u8>>)
    ensures
        match r {
            Some(v) => spec_header(s@) == Some(v@),
            None => spec_header(s@) is None,
        },
{
    let spans = line_index(s);
    let n = spans.len();
    proof {
        assert(n as int == line_count(s@));
    }
    let mut k: usize = 0;
    while k < n
        invariant
            spans_ints(spans@) == line_spans(s@),
            n == spans@.len(),
            n as int == line_count(s@),
            0 <= k,
            spec_header(s@) == spec_header_from(s@, k as int),
        decreases n - k,
    {
        proof {
            lemma_spans_from_wf(s@, 0);
            assert(spans_ints(spans@)[k as int] == (spans@[k as int].0 as int,
                spans@[k as int].1 as int));
        }
        let a = spans[k].0;
        let b = spans[k].1;
        assert(0 <= a <= b <= s@.len());
        let l = sub_vec(s, a, b);
        let ghost lg = s@.subrange(a as int, b as int);
        assert(l@ == lg);
        let mut lo: usize = 0;
        while lo < l.len() && is_ws(l[lo])
            invariant
                0 <= lo <= l@.len(),
                forall|t: int| 0 <= t < lo ==> spec_is_ws(l@[t]),
            decreases l@.len() - lo,
        {
            lo += 1;
        }
        proof {
            lemma_first_non_ws_from_unique(l@, 0, lo as int);
        }
        let mut hi: usize = l.len();
        while hi > lo && is_ws(l[hi - 1])
            invariant
                lo <= hi <= l@.len(),
                trim_end_from(l@, lo as int, l@.len() as int) == trim_end_from(l@, lo as int,
                    hi as int),
            decreases hi,
        {
            hi -= 1;
        }
        proof {
            assert(hi as int == trim_end_from(l@, lo as int, l@.len() as int));
        }
        if hi > lo {
            let t = sub_vec(l.as_slice(), lo, hi);
            proof {
                assert(t@ == spec_trim_line(s@, k as int));
            }
            return Some(t);
        }
        proof {
            assert(lg.subrange(lo as int, hi as int) =~= Seq::<u8>::empty());
            assert(spec_trim_line(s@, k as int).len() == 0);
        }
        k += 1;
    }
    None
}

/// A sub-chunk the secondary splitter may emit: within the byte and line
/// limits, carrying the parent chunk's type and context. A window that will
/// be prefixed with the header line is one line shorter, so the limits hold
/// with the header included.
pub open spec fn split_piece_ok(cv: ChunkView, ty: ChunkType, ctx: Seq<Seq<u8>>) -> bool {
    cv.content.len() <= MAX_CHARS && line_count(cv.content) <= MAX_LINES && cv.chunk_type
        == ty && cv.context == ctx && !cv.is_anchor
}

/// Whether the window at line `k` is prefixed with the chunk's header line:
/// every window but the first of a non-block chunk that has one.
pub open spec fn spec_has_header(k: int, ty: ChunkType, hdr: Option<Seq<u8>>) -> bool {
    k > 0 && ty != ChunkType::Block && hdr is Some
}

/// What one piece of bytes becomes: a single sub-chunk when it fits the
/// byte limit, else its char-split pieces.
pub open spec fn spec_emit_pieces(
    bytes: Seq<u8>,
    ln: int,
    j_end: int,
    ty: ChunkType,
    ctx: Seq<Seq<u8>>,
) -> Seq<ChunkView> {
    if bytes.len() <= MAX_CHARS {
        seq![
            ChunkView {
                content: bytes,
                start_line: ln,
                end_line: j_end,
                chunk_type: ty,
                context: ctx,
                is_anchor: false,
            },
        ]
    } else {
        spec_char_split(bytes, 0, ln, ty, ctx)
    }
}

/// The line-window subdivision of an over-long chunk, from the window at
/// line `k` on: windows of at most `MAX_LINES` lines — one fewer when the
/// header will be prefixed — at the fallback stride, non-first windows
/// under three lines dropped, each window's bytes emitted whole or cut by
/// chars.
pub open spec fn spec_line_split(
    s: Seq<u8>,
    base: int,
    ty: ChunkType,
    ctx: Seq<Seq<u8>>,
    hdr: Option<Seq<u8>>,
    k: int,
) -> Seq<ChunkView>
    decreases line_count(s) + STRIDE_LINES - k,
    when 0 <= k
{
    let n = line_count(s);
    if k >= n {
        Seq::empty()
    } else {
        let limit = if spec_has_header(k, ty, hdr) {
            (MAX_LINES - 1) as int
        } else {
            MAX_LINES as int
        };
        let j = if k + limit <= n {
            k + limit
        } else {
            n
        };
        (if k > 0 && j - k < 3 {
            Seq::empty()
        } else {
            let w = s.subrange(line_spans(s)[k].0, line_spans(s)[j - 1].1);
            let bytes = if spec_has_header(k, ty, hdr) {
                hdr.unwrap() + seq![NEWLINE] + w
            } else {
                w
            };
            spec_emit_pieces(bytes, base + k, base + j, ty, ctx)
        }) + spec_line_split(s, base, ty, ctx, hdr, k + STRIDE_LINES)
    }
}

/// The bytes of the line window `[k, j)` of an over-long chunk, prefixed
/// with the chunk's header line outside the first window of non-block
/// chunks.
#[verifier::rlimit(100)]
#[verifier::spinoff_prover]
fn line_window_bytes(
    content: &[u8],
    spans: &Vec<(usize, usize)>,
    header: &Option<Vec<u8>>,
    k: usize,
    j: usize,
    ty: ChunkType,
) -> (bytes: Vec<u8>)
    requires
        spans_ints(spans@) == line_spans(content@),
        0 <= (k as int) < line_count(content@),
        (k as int) < j as int <= line_count(content@),
        j <= spans@.len(),
        spec_has_header(k as int, ty, spec_header(content@)) ==> j - k <= MAX_LINES - 1,
        !spec_has_header(k as int, ty, spec_header(content@)) ==> j - k <= MAX_LINES,
        match header {
            Some(h) => spec_header(content@) == Some(h@),
            None => spec_header(content@) is None,
        },
    ensures
        bytes@ == {
            let w = content@.subrange(
                line_spans(content@)[k as int].0,
                line_spans(content@)[j - 1].1,
            );
            if spec_has_header(k as int, ty, spec_header(content@)) {
                spec_header(content@).unwrap() + seq![NEWLINE] + w
            } else {
                w
            }
        },
        line_count(bytes@) <= MAX_LINES,
        bytes@.len() <= 2 * content@.len() + 1,
{
    proof {
        lemma_spans_from_wf(content@, 0);
        lemma_spans_monotonic(content@, k as int, j - 1);
        assert(spans_ints(spans@)[k as int] == (spans@[k as int].0 as int,
            spans@[k as int].1 as int));
        assert(spans_ints(spans@)[j - 1] == (spans@[j - 1].0 as int, spans@[j - 1].1 as int));
    }
    let a = spans[k].0;
    let b = spans[j - 1].1;
    assert(0 <= a <= b <= content@.len());
    let w = sub_vec(content, a, b);
    proof {
        lemma_window_line_count(content@, k as int, j as int);
        assert(line_count(w@) <= j - k);
    }
    match header {
        Some(h) if k > 0 && !matches!(ty, ChunkType::Block) => {
            let mut bytes: Vec<u8> = Vec::new();
            push_all(&mut bytes, h.as_slice());
            bytes.push(NEWLINE);
            push_all(&mut bytes, w.as_slice());
            proof {
                lemma_header_props(content@, 0, h@);
                assert(bytes@ =~= h@ + seq![NEWLINE] + w@);
                lemma_prefixed_line_count(h@, w@);
            }
            bytes
        },
        _ => w,
    }
}

/// Appends `bytes` as one sub-chunk, or as its char-split pieces when it is
/// over the byte limit: exactly [`spec_emit_pieces`].
#[verifier::rlimit(100)]
#[verifier::spinoff_prover]
fn emit_pieces(out: &mut Vec<Chunk>, bytes: Vec<u8>, ln: usize, j_end: usize, ty: ChunkType,
    ctx: &Vec<Vec<u8>>)
    requires
        line_count(bytes@) <= MAX_LINES,
        ln + bytes@.len() <= 0xffff_fffe,
    ensures
        chunk_views(final(out)@) == chunk_views(old(out)@) + spec_emit_pieces(
            bytes@,
            ln as int,
            j_end as int,
            ty,
            ctx.deep_view(),
        ),
        forall|t: int|
            old(out)@.len() <= t < final(out)@.len() ==> split_piece_ok(
                #[trigger] chunk_views(final(out)@)[t],
                ty,
                ctx.deep_view(),
            ),
{
    let ghost prev = out@;
    if bytes.len() <= MAX_CHARS {
        let ghost bview = bytes@;
        let sub = Chunk {
            content: bytes,
            start_line: ln,
            end_line: j_end,
            chunk_type: ty,
            context: clone_context(ctx),
            is_anchor: false,
        };
        let ghost cv = sub@;
        out.push(sub);
        proof {
            assert(chunk_views(out@) =~= chunk_views(prev).push(cv));
            assert(cv =~= spec_emit_pieces(bview, ln as int, j_end as int, ty,
                ctx.deep_view())[0]);
            assert(chunk_views(prev).push(cv) =~= chunk_views(prev) + spec_emit_pieces(
                bview,
                ln as int,
                j_end as int,
                ty,
                ctx.deep_view(),
            ));
            assert(split_piece_ok(cv, ty, ctx.deep_view()));
        }
    } else {
        char_split_into(out, bytes.as_slice(), ln, ty, ctx);
        proof {
            lemma_char_split_bounds(bytes@, 0, ln as int, ty, ctx.deep_view());
            let pieces = spec_char_split(bytes@, 0, ln as int, ty, ctx.deep_view());
            assert(chunk_views(out@) == chunk_views(prev) + pieces);
            assert forall|t: int| prev.len() <= t < out@.len() implies split_piece_ok(
                #[trigger] chunk_views(out@)[t],
                ty,
                ctx.deep_view(),
            ) by {
                assert(chunk_views(out@)[t] == pieces[t - prev.len()]);
            }
        }
    }
}

/// Subdivides a chunk that exceeds the line or byte limits: an over-long but
/// line-bounded chunk is cut by bytes; a chunk with too many lines is cut
/// into line windows at the fallback stride, each window prefixed with the
/// chunk's header line (except the first window, and except block chunks;
/// a window that takes the header is one line shorter, so the line limit
/// holds with the header in), windows under three lines dropped (except
/// the first), and any window still too long cut by bytes. A chunk within
/// both limits passes through unchanged. The result is exactly
/// [`spec_char_split`] or [`spec_line_split`] of the content.
#[verifier::rlimit(100)]
pub fn split_if_too_big(c: Chunk) -> (r: Vec<Chunk>)
    requires
        c@.start_line + 3 * c@.content.len() + 2 <= 0xffff_fffe,
    ensures
        c@.content.len() <= MAX_CHARS && line_count(c@.content) <= MAX_LINES ==> chunk_views(
            r@,
        ) == seq![c@],
        c@.content.len() > MAX_CHARS && line_count(c@.content) <= MAX_LINES ==> chunk_views(r@)
            == spec_char_split(c@.content, 0, c@.start_line, c@.chunk_type, c@.context),
        line_count(c@.content) > MAX_LINES ==> chunk_views(r@) == spec_line_split(
            c@.content,
            c@.start_line,
            c@.chunk_type,
            c@.context,
            spec_header(c@.content),
            0,
        ),
        line_count(c@.content) > MAX_LINES ==> forall|k: int|
            0 <= k < r@.len() ==> split_piece_ok(
                #[trigger] chunk_views(r@)[k],
                c@.chunk_type,
                c@.context,
            ),
{
    let lc = crate::lines::count_lines(c.content.as_slice());
    if c.content.len() <= MAX_CHARS && lc <= MAX_LINES {
        let ghost cv = c@;
        let mut out: Vec<Chunk> = Vec::new();
        out.push(c);
        proof {
            assert(chunk_views(out@) =~= seq![cv]);
        }
        return out;
    }
    if lc <= MAX_LINES {
        let mut out: Vec<Chunk> = Vec::new();
        char_split_into(&mut out, c.content.as_slice(), c.start_line, c.chunk_type, &c.context);
        proof {
            assert(chunk_views(out@) =~= Seq::<ChunkView>::empty() + chunk_views(out@));
        }
        return out;
    }
    let header = extract_header(c.content.as_slice());
    let spans = line_index(c.content.as_slice());
    let n = spans.len();
    proof {
        assert(n as int == line_count(c@.content));
        lemma_spans_from_count(c@.content, 0);
        lemma_nl_count_le_width(c@.content, 0, c@.content.len() as int);
        lemma_nl_count_nonneg(c@.content, 0, c@.content.len() as int);
    }
    let content = &c.content;
    let base = c.start_line;
    let ty = c.chunk_type;
    let ghost hdr = spec_header(c@.content);
    let ghost total = spec_line_split(c@.content, base as int, ty, c@.context, hdr, 0);
    let mut out: Vec<Chunk> = Vec::new();
    let mut k: usize = 0;
    proof {
        assert(chunk_views(out@) + total =~= total);
    }
    while k < n
        invariant
            spans_ints(spans@) == line_spans(c@.content),
            n == spans@.len(),
            n as int == line_count(c@.content),
            content@ == c@.content,
            c@.start_line + 3 * c@.content.len() + 2 <= 0xffff_fffe,
            n <= c@.content.len() + 1,
            base == c@.start_line,
            ty == c@.chunk_type,
            hdr == spec_header(c@.content),
            total == spec_line_split(c@.content, base as int, ty, c@.context, hdr, 0),
            match header {
                Some(ref h) => spec_header(c@.content) == Some(h@),
                None => spec_header(c@.content) is None,
            },
            0 <= k,
            chunk_views(out@) + spec_line_split(c@.content, base as int, ty, c@.context, hdr,
                k as int) == total,
            forall|t: int|
                0 <= t < out@.len() ==> split_piece_ok(
                    #[trigger] chunk_views(out@)[t],
                    ty,
                    c@.context,
                ),
        decreases n + STRIDE_LINES - k,
    {
        let has_hdr: bool = header.is_some() && k > 0 && !matches!(ty, ChunkType::Block);
        proof {
            assert(has_hdr == spec_has_header(k as int, ty, hdr));
        }
        let limit: usize = if has_hdr {
            MAX_LINES - 1
        } else {
            MAX_LINES
        };
        let j: usize = if n >= limit && k <= n - limit {
            k + limit
        } else {
            n
        };
        let ghost head_part = spec_line_split(c@.content, base as int, ty, c@.context, hdr,
            k as int);
        let ghost tail_part = spec_line_split(c@.content, base as int, ty, c@.context, hdr,
            k + STRIDE_LINES);
        if !(k > 0 && j - k < 3) {
            let bytes = line_window_bytes(content.as_slice(), &spans, &header, k, j, ty);
            let ghost prev = out@;
            emit_pieces(&mut out, bytes, base + k, base + j, ty, &c.context);
            proof {
                assert(head_part == spec_emit_pieces(bytes@, base + k, base + j, ty,
                    c@.context) + tail_part);
                assert(chunk_views(prev) + head_part =~= chunk_views(out@) + tail_part);
                assert forall|t: int| 0 <= t < out@.len() implies split_piece_ok(
                    #[trigger] chunk_views(out@)[t],
                    ty,
                    c@.context,
                ) by {
                    if t < prev.len() {
                        assert(chunk_views(out@)[t] == chunk_views(prev)[t]);
                    }
                }
            }
        } else {
            proof {
                assert(head_part =~= Seq::<ChunkView>::empty() + tail_part);
                assert(chunk_views(out@) + head_part =~= chunk_views(out@) + tail_part);
            }
        }
        k += STRIDE_LINES;
    }
    proof {
        assert(spec_line_split(c@.content, base as int, ty, c@.context, hdr, k as int)
            =~= Seq::<ChunkView>::empty());
        assert(chunk_views(out@) + Seq::<ChunkView>::empty() =~= chunk_views(out@));
    }
    out
}

/// Idempotence law: two chunkings of the same content and path are equal,
/// byte for byte, bound for bound, crumb for crumb.
pub proof fn lemma_fallback_deterministic(
    c1: Seq<Chunk>,
    c2: Seq<Chunk>,
    s: Seq<u8>,
    path: Seq<u8>,
)
    requires
        chunk_views(c1) == spec_simple_chunks(s, path),
        chunk_views(c2) == spec_simple_chunks(s, path),
    ensures
        chunk_views(c1) == chunk_views(c2),
{
}

} // verus!
