//! The anchor chunk: one synthetic chunk per file that lists the
//! identifiers named on its import and export lines, always flagged for a
//! retrieval boost. Its content is three lines — the file crumb, the
//! imports list, the exports list — and obeys the chunk limits.

use vstd::prelude::*;
use crate::NEWLINE;
use crate::bytes::{push_all, sub_vec, bytes_eq, spec_starts_with, spec_has_sub, starts_with};
use crate::chunker::{
    Chunk, ChunkType, file_crumb, spec_file_crumb, clone_context, is_ws, spec_is_ws,
    lemma_first_non_ws_from_unique, lemma_prefixed_line_count, MAX_CHARS, MAX_LINES,
    MAX_CONTENT,
};
use crate::lines::{line_count, line_index, lemma_spans_from_count, lemma_nl_count_zero};

verus! {

/// `Imports: `.
pub open spec fn spec_imports_label() -> Seq<u8> {
    seq![73u8, 109u8, 112u8, 111u8, 114u8, 116u8, 115u8, 58u8, 32u8]
}

/// `Exports: `.
pub open spec fn spec_exports_label() -> Seq<u8> {
    seq![69u8, 120u8, 112u8, 111u8, 114u8, 116u8, 115u8, 58u8, 32u8]
}

/// `import`.
pub open spec fn spec_import_kw() -> Seq<u8> {
    seq![105u8, 109u8, 112u8, 111u8, 114u8, 116u8]
}

/// `export`.
pub open spec fn spec_export_kw() -> Seq<u8> {
    seq![101u8, 120u8, 112u8, 111u8, 114u8, 116u8]
}

fn imports_label() -> (r: Vec<u8>)
    ensures
        r@ == spec_imports_label(),
{
    let mut v: Vec<u8> = Vec::new();
    v.push(73);
    v.push(109);
    v.push(112);
    v.push(111);
    v.push(114);
    v.push(116);
    v.push(115);
    v.push(58);
    v.push(32);
    proof {
        assert(v@ =~= spec_imports_label());
    }
    v
}

fn exports_label() -> (r: Vec<u8>)
    ensures
        r@ == spec_exports_label(),
{
    let mut v: Vec<u8> = Vec::new();
    v.push(69);
    v.push(120);
    v.push(112);
    v.push(111);
    v.push(114);
    v.push(116);
    v.push(115);
    v.push(58);
    v.push(32);
    proof {
        assert(v@ =~= spec_exports_label());
    }
    v
}

fn import_kw() -> (r: Vec<u8>)
    ensures
        r@ == spec_import_kw(),
{
    let mut v: Vec<u8> = Vec::new();
    v.push(105);
    v.push(109);
    v.push(112);
    v.push(111);
    v.push(114);
    v.push(116);
    proof {
        assert(v@ =~= spec_import_kw());
    }
    v
}

fn export_kw() -> (r: Vec<u8>)
    ensures
        r@ == spec_export_kw(),
{
    let mut v: Vec<u8> = Vec::new();
    v.push(101);
    v.push(120);
    v.push(112);
    v.push(111);
    v.push(114);
    v.push(116);
    proof {
        assert(v@ =~= spec_export_kw());
    }
    v
}

/// A byte that may start an identifier.
pub open spec fn spec_ident_start(b: u8) -> bool {
    (65 <= b <= 90) || (97 <= b <= 122) || b == 95 || b == 36
}

/// A byte that may continue an identifier.
pub open spec fn spec_ident_byte(b: u8) -> bool {
    spec_ident_start(b) || (48 <= b <= 57)
}

fn is_ident_start(b: u8) -> (r: bool)
    ensures
        r == spec_ident_start(b),
{
    (65 <= b && b <= 90) || (97 <= b && b <= 122) || b == 95 || b == 36
}

fn is_ident_byte(b: u8) -> (r: bool)
    ensures
        r == spec_ident_byte(b),
{
    is_ident_start(b) || (48 <= b && b <= 57)
}

/// A keyword that names no import or export of interest.
fn is_keyword(tok: &[u8]) -> bool {
    let mut kws: Vec<Vec<u8>> = Vec::new();
    kws.push(import_kw());
    kws.push(export_kw());
    let mut from_kw: Vec<u8> = Vec::new();
    from_kw.push(102);
    from_kw.push(114);
    from_kw.push(111);
    from_kw.push(109);
    kws.push(from_kw);
    let mut const_kw: Vec<u8> = Vec::new();
    const_kw.push(99);
    const_kw.push(111);
    const_kw.push(110);
    const_kw.push(115);
    const_kw.push(116);
    kws.push(const_kw);
    let mut let_kw: Vec<u8> = Vec::new();
    let_kw.push(108);
    let_kw.push(101);
    let_kw.push(116);
    kws.push(let_kw);
    let mut var_kw: Vec<u8> = Vec::new();
    var_kw.push(118);
    var_kw.push(97);
    var_kw.push(114);
    kws.push(var_kw);
    let mut function_kw: Vec<u8> = Vec::new();
    function_kw.push(102);
    function_kw.push(117);
    function_kw.push(110);
    function_kw.push(99);
    function_kw.push(116);
    function_kw.push(105);
    function_kw.push(111);
    function_kw.push(110);
    kws.push(function_kw);
    let mut class_kw: Vec<u8> = Vec::new();
    class_kw.push(99);
    class_kw.push(108);
    class_kw.push(97);
    class_kw.push(115);
    class_kw.push(115);
    kws.push(class_kw);
    let mut default_kw: Vec<u8> = Vec::new();
    default_kw.push(100);
    default_kw.push(101);
    default_kw.push(102);
    default_kw.push(97);
    default_kw.push(117);
    default_kw.push(108);
    default_kw.push(116);
    kws.push(default_kw);
    let mut as_kw: Vec<u8> = Vec::new();
    as_kw.push(97);
    as_kw.push(115);
    kws.push(as_kw);
    let mut i: usize = 0;
    while i < kws.len()
        invariant
            0 <= i <= kws@.len(),
        decreases kws@.len() - i,
    {
        if bytes_eq(tok, kws[i].as_slice()) {
            return true;
        }
        i += 1;
    }
    false
}

/// Bytes of a list line never include a newline.
pub open spec fn no_newline(s: Seq<u8>) -> bool {
    forall|i: int| 0 <= i < s.len() ==> s[i] != NEWLINE
}

/// Appends the identifier tokens of `line` to `list`, comma-separated,
/// skipping keywords, while the list stays within `cap` bytes.
fn collect_tokens(list: &mut Vec<u8>, line: &[u8], cap: usize)
    requires
        no_newline(old(list)@),
        old(list)@.len() <= cap,
    ensures
        no_newline(final(list)@),
        final(list)@.len() <= cap,
        final(list)@.len() >= old(list)@.len(),
        forall|t: int| 0 <= t < old(list)@.len() ==> #[trigger] final(list)@[t] == old(
            list,
        )@[t],
{
    let mut j: usize = 0;
    while j < line.len()
        invariant
            0 <= j <= line@.len(),
            no_newline(list@),
            list@.len() <= cap,
            list@.len() >= old(list)@.len(),
            forall|t: int| 0 <= t < old(list)@.len() ==> #[trigger] list@[t] == old(list)@[t],
        decreases line@.len() - j,
    {
        if is_ident_start(line[j]) {
            let start = j;
            let mut k = j;
            while k < line.len() && is_ident_byte(line[k])
                invariant
                    start <= k <= line@.len(),
                    forall|t: int| start <= t < k ==> spec_ident_byte(line@[t]),
                decreases line@.len() - k,
            {
                k += 1;
            }
            let tok = sub_vec(line, start, k);
            if !is_keyword(tok.as_slice()) {
                if tok.len() <= cap && cap - tok.len() >= 2 && list.len() <= cap - tok.len()
                    - 2 {
                    let ghost pre = list@;
                    list.push(44);
                    list.push(32);
                    push_all(list, tok.as_slice());
                    proof {
                        assert forall|t: int| 0 <= t < list@.len() implies list@[t]
                            != NEWLINE by {
                            if t >= pre.len() + 2 {
                                assert(list@[t] == tok@[t - pre.len() - 2]);
                                assert(spec_ident_byte(tok@[t - pre.len() - 2]));
                            }
                        }
                    }
                }
            }
            j = k;
        } else {
            j += 1;
        }
    }
}

/// The line's non-blank part starts with the keyword.
fn trimmed_starts_with(line: &[u8], kw: &[u8]) -> (r: bool)
{
    let mut lo: usize = 0;
    while lo < line.len() && is_ws(line[lo])
        invariant
            0 <= lo <= line@.len(),
        decreases line@.len() - lo,
    {
        lo += 1;
    }
    let rest = vstd::slice::slice_subrange(line, lo, line.len());
    starts_with(rest, kw)
}

/// Builds the synthetic file-summary chunk: the file crumb, a line listing
/// the identifiers of the file's import lines, and a line listing those of
/// its export lines. The chunk is flagged as the anchor, typed as a block,
/// spans no source lines, and stays inside the chunk limits.
#[verifier::rlimit(100)]
pub fn create_anchor_chunk(content: &[u8], path: &[u8]) -> (r: Chunk)
    requires
        content@.len() <= MAX_CONTENT,
        path@.len() <= 900,
        forall|i: int| 0 <= i < path@.len() ==> path@[i] != NEWLINE,
    ensures
        r@.is_anchor,
        r@.chunk_type == ChunkType::Block,
        r@.start_line == 0 && r@.end_line == 0,
        r@.content.len() <= MAX_CHARS,
        line_count(r@.content) <= MAX_LINES,
        spec_starts_with(r@.content, spec_file_crumb(path@)),
        spec_has_sub(r@.content, spec_imports_label()),
        spec_has_sub(r@.content, spec_exports_label()),
        r@.context == seq![spec_file_crumb(path@)],
{
    let crumb = file_crumb(path);
    let mut imports = imports_label();
    let mut exports = exports_label();
    let spans = line_index(content);
    let ikw = import_kw();
    let ekw = export_kw();
    proof {
        assert(imports@.subrange(0, spec_imports_label().len() as int) =~= imports@);
        assert(exports@.subrange(0, spec_exports_label().len() as int) =~= exports@);
    }
    let mut t: usize = 0;
    while t < spans.len()
        invariant
            crate::lines::spans_ints(spans@) == crate::lines::line_spans(content@),
            no_newline(imports@),
            no_newline(exports@),
            spec_starts_with(imports@, spec_imports_label()),
            spec_starts_with(exports@, spec_exports_label()),
            imports@.len() <= 500,
            exports@.len() <= 500,
        decreases spans@.len() - t,
    {
        proof {
            crate::lines::lemma_spans_from_wf(content@, 0);
            assert(crate::lines::spans_ints(spans@)[t as int] == (spans@[t as int].0 as int,
                spans@[t as int].1 as int));
        }
        let (a, b) = spans[t];
        assert(0 <= a <= b <= content@.len());
        let line = vstd::slice::slice_subrange(content, a, b);
        let ghost imp_pre = imports@;
        let ghost exp_pre = exports@;
        if trimmed_starts_with(line, ikw.as_slice()) {
            collect_tokens(&mut imports, line, 500);
            proof {
                assert(imports@.subrange(0, spec_imports_label().len() as int)
                    =~= imp_pre.subrange(0, spec_imports_label().len() as int));
            }
        } else if trimmed_starts_with(line, ekw.as_slice()) {
            collect_tokens(&mut exports, line, 500);
            proof {
                assert(exports@.subrange(0, spec_exports_label().len() as int)
                    =~= exp_pre.subrange(0, spec_exports_label().len() as int));
            }
        }
        t += 1;
    }
    let mut body: Vec<u8> = Vec::new();
    push_all(&mut body, crumb.as_slice());
    body.push(NEWLINE);
    push_all(&mut body, imports.as_slice());
    body.push(NEWLINE);
    push_all(&mut body, exports.as_slice());
    let ghost bodyv = body@;
    proof {
        assert(bodyv =~= crumb@ + seq![NEWLINE] + (imports@ + seq![NEWLINE] + exports@));
        assert(crumb@.len() > 0 && no_newline(crumb@)) by {
            assert(crumb@ == spec_file_crumb(path@));
            assert(forall|i: int|
                0 <= i < crumb@.len() ==> crumb@[i] == if i < 6 {
                    seq![70u8, 105u8, 108u8, 101u8, 58u8, 32u8][i]
                } else {
                    path@[i - 6]
                });
        }
        lemma_prefixed_line_count(crumb@, imports@ + seq![NEWLINE] + exports@);
        assert(imports@.len() > 0 && no_newline(imports@));
        lemma_prefixed_line_count(imports@, exports@);
        assert(line_count(exports@) <= 1) by {
            lemma_spans_from_count(exports@, 0);
            lemma_nl_count_zero(exports@, 0, exports@.len() as int);
        }
        assert((imports@ + seq![NEWLINE] + exports@).len() > 0);
        assert(line_count(bodyv) <= 3);
        assert(spec_starts_with(bodyv, spec_file_crumb(path@))) by {
            assert(bodyv.subrange(0, crumb@.len() as int) =~= crumb@);
        }
        assert(spec_has_sub(bodyv, spec_imports_label())) by {
            let off: int = crumb@.len() as int + 1;
            assert(bodyv.subrange(off, off + spec_imports_label().len() as int)
                =~= spec_imports_label());
        }
        assert(spec_has_sub(bodyv, spec_exports_label())) by {
            let off: int = crumb@.len() as int + 1 + imports@.len() as int + 1;
            assert(bodyv.subrange(off, off + spec_exports_label().len() as int)
                =~= spec_exports_label());
        }
    }
    let mut ctx: Vec<Vec<u8>> = Vec::new();
    ctx.push(crumb);
    proof {
        assert(ctx.deep_view() =~~= seq![spec_file_crumb(path@)]);
    }
    Chunk {
        content: body,
        start_line: 0,
        end_line: 0,
        chunk_type: ChunkType::Block,
        context: ctx,
        is_anchor: true,
    }
}

} // verus!
