//! Post-ranking of search candidates: structural boosts, the final sort,
//! the per-file cap and the top-K truncation. Scores are integers in
//! micro-units (1_000_000 stands for a similarity of 1.0); the floating
//! point similarity arithmetic happens outside and is handed in as these
//! integers.

use vstd::prelude::*;
use vstd::multiset::Multiset;
use crate::chunker::ChunkType;
use crate::bytes::{spec_lex_lt, lex_lt, bytes_eq};

verus! {

/// One ranked passage of a search response.
pub struct SearchResult {
    /// Repo-relative path.
    pub path: Vec<u8>,
    /// The chunk's bytes.
    pub content: Vec<u8>,
    /// Blended score in micro-units.
    pub score: i64,
    pub start_line: u32,
    pub num_lines: u32,
    pub chunk_type: ChunkType,
    pub is_anchor: bool,
}

/// Boost for the synthetic file-summary chunk.
pub const ANCHOR_BONUS: i64 = 40000;

/// The structural bonus of a chunk type, ordered class over function over
/// block over the rest; small enough that no bonus flips a clear score gap.
pub open spec fn spec_type_bonus(t: ChunkType) -> int {
    match t {
        ChunkType::Class => 30000,
        ChunkType::Interface => 28000,
        ChunkType::TypeAlias => 26000,
        ChunkType::Function => 24000,
        ChunkType::Block => 20000,
        ChunkType::Other => 16000,
    }
}

fn type_bonus(t: ChunkType) -> (r: i64)
    ensures
        r as int == spec_type_bonus(t),
{
    match t {
        ChunkType::Class => 30000,
        ChunkType::Interface => 28000,
        ChunkType::TypeAlias => 26000,
        ChunkType::Function => 24000,
        ChunkType::Block => 20000,
        ChunkType::Other => 16000,
    }
}

/// The whole structural boost of a hit.
pub open spec fn spec_boost(h: SearchResult) -> int {
    spec_type_bonus(h.chunk_type) + if h.is_anchor {
        ANCHOR_BONUS as int
    } else {
        0int
    }
}

/// The score after the boost, saturating at the top of the range.
pub open spec fn spec_boosted_score(h: SearchResult) -> int {
    if h.score + spec_boost(h) > i64::MAX {
        i64::MAX as int
    } else {
        h.score + spec_boost(h)
    }
}

/// Fields other than the score agree.
pub open spec fn same_hit_body(a: SearchResult, b: SearchResult) -> bool {
    a.path@ == b.path@ && a.content@ == b.content@ && a.start_line == b.start_line
        && a.num_lines == b.num_lines && a.chunk_type == b.chunk_type && a.is_anchor
        == b.is_anchor
}

/// The hit with its boosted score.
pub open spec fn spec_boost_hit(h: SearchResult) -> SearchResult {
    SearchResult {
        path: h.path,
        content: h.content,
        score: spec_boosted_score(h) as i64,
        start_line: h.start_line,
        num_lines: h.num_lines,
        chunk_type: h.chunk_type,
        is_anchor: h.is_anchor,
    }
}

/// Adds the structural boost to every hit's score, keeping everything else.
pub fn apply_structural_boost(hits: Vec<SearchResult>) -> (r: Vec<SearchResult>)
    ensures
        r@.len() == hits@.len(),
        r@ == hits@.map_values(|h: SearchResult| spec_boost_hit(h)),
        forall|i: int|
            0 <= i < r@.len() ==> same_hit_body(#[trigger] r@[i], hits@[i])
                && r@[i].score as int == spec_boosted_score(hits@[i]),
{
    let mut out: Vec<SearchResult> = Vec::new();
    let mut rest = hits;
    let ghost orig = rest@;
    let n = rest.len();
    let mut i: usize = 0;
    while i < n
        invariant
            n == orig.len(),
            0 <= i <= n,
            rest@ == orig.subrange(i as int, n as int),
            out@.len() == i,
            out@ == orig.subrange(0, i as int).map_values(
                |x: SearchResult| spec_boost_hit(x),
            ),
            forall|t: int|
                0 <= t < out@.len() ==> same_hit_body(#[trigger] out@[t], orig[t])
                    && out@[t].score as int == spec_boosted_score(orig[t]),
        decreases n - i,
    {
        let h = rest.remove(0);
        proof {
            assert(rest@ =~= orig.subrange(i + 1, n as int));
            assert(h == orig[i as int]);
        }
        let b0 = type_bonus(h.chunk_type);
        let b: i64 = if h.is_anchor {
            b0 + ANCHOR_BONUS
        } else {
            b0
        };
        let score: i64 = if h.score > i64::MAX - b {
            i64::MAX
        } else {
            h.score + b
        };
        let ghost prev = out@;
        out.push(SearchResult { score, ..h });
        proof {
            assert(out@.last() == spec_boost_hit(orig[i as int]));
            assert(out@ =~= orig.subrange(0, i + 1).map_values(
                |x: SearchResult| spec_boost_hit(x),
            ));
        }
        i += 1;
    }
    proof {
        assert(orig.subrange(0, orig.len() as int) =~= orig);
    }
    out
}

/// The rank order: higher score first, ties broken by ascending path, then
/// ascending start line.
pub open spec fn hit_before(a: SearchResult, b: SearchResult) -> bool {
    ||| a.score > b.score
    ||| (a.score == b.score && spec_lex_lt(a.path@, b.path@))
    ||| (a.score == b.score && a.path@ == b.path@ && a.start_line <= b.start_line)
}

/// Byte sequences are totally ordered by `spec_lex_lt`.
proof fn lemma_lex_trichotomy(a: Seq<u8>, b: Seq<u8>)
    ensures
        spec_lex_lt(a, b) || spec_lex_lt(b, a) || a == b,
    decreases a.len(),
{
    if a.len() > 0 && b.len() > 0 && a[0] == b[0] {
        lemma_lex_trichotomy(a.skip(1), b.skip(1));
        if !spec_lex_lt(a, b) && !spec_lex_lt(b, a) {
            assert(a.skip(1) == b.skip(1));
            assert(a =~= b) by {
                assert(forall|i: int| 1 <= i < a.len() ==> a[i] == a.skip(1)[i - 1]);
            }
        }
    }
}

/// The rank order is total.
proof fn lemma_hit_order_total(a: SearchResult, b: SearchResult)
    ensures
        hit_before(a, b) || hit_before(b, a),
{
    if a.score == b.score {
        lemma_lex_trichotomy(a.path@, b.path@);
    }
}

/// `spec_lex_lt` is asymmetric.
proof fn lemma_lex_asym(a: Seq<u8>, b: Seq<u8>)
    ensures
        !(spec_lex_lt(a, b) && spec_lex_lt(b, a)),
    decreases a.len(),
{
    if a.len() > 0 && b.len() > 0 && a[0] == b[0] {
        lemma_lex_asym(a.skip(1), b.skip(1));
    }
}

/// `spec_lex_lt` is transitive.
proof fn lemma_lex_trans(a: Seq<u8>, b: Seq<u8>, c: Seq<u8>)
    requires
        spec_lex_lt(a, b),
        spec_lex_lt(b, c),
    ensures
        spec_lex_lt(a, c),
    decreases a.len(),
{
    if a.len() > 0 && b.len() > 0 && c.len() > 0 && a[0] == b[0] && b[0] == c[0] {
        lemma_lex_trans(a.skip(1), b.skip(1), c.skip(1));
    }
}

/// The rank order is transitive.
proof fn lemma_hit_order_trans(a: SearchResult, b: SearchResult, c: SearchResult)
    requires
        hit_before(a, b),
        hit_before(b, c),
    ensures
        hit_before(a, c),
{
    if a.score == b.score && b.score == c.score {
        if spec_lex_lt(a.path@, b.path@) && spec_lex_lt(b.path@, c.path@) {
            lemma_lex_trans(a.path@, b.path@, c.path@);
        }
    }
}

fn hit_strictly_before(a: &SearchResult, b: &SearchResult) -> (r: bool)
    ensures
        r == (hit_before(*a, *b) && !hit_before(*b, *a)),
{
    proof {
        lemma_hit_order_total(*a, *b);
    }
    if a.score != b.score {
        return a.score > b.score;
    }
    if !bytes_eq(a.path.as_slice(), b.path.as_slice()) {
        proof {
            lemma_lex_asym(a.path@, b.path@);
        }
        return lex_lt(a.path.as_slice(), b.path.as_slice());
    }
    proof {
        lemma_lex_asym(a.path@, a.path@);
    }
    a.start_line < b.start_line
}

/// Sorts hits by descending score, ties broken by `(path, start_line)`,
/// keeping equal keys in their original order and keeping exactly the
/// original hits.
#[verifier::rlimit(100)]
#[verifier::spinoff_prover]
pub fn sort_hits(input: Vec<SearchResult>) -> (r: Vec<SearchResult>)
    ensures
        r@.len() == input@.len(),
        forall|k: int| 0 <= k < r@.len() - 1 ==> hit_before(#[trigger] r@[k], r@[k + 1]),
        r@.to_multiset() == input@.to_multiset(),
        forall|x: SearchResult| r@.contains(x) ==> input@.contains(x),
{
    broadcast use vstd::seq_lib::group_to_multiset_ensures;

    let ghost orig = input@;
    let mut rem = input;
    let mut out: Vec<SearchResult> = Vec::new();
    proof {
        assert(out@.to_multiset().add(rem@.to_multiset()) =~= orig.to_multiset());
    }
    while rem.len() > 0
        invariant
            out@.len() + rem@.len() == orig.len(),
            out@.to_multiset().add(rem@.to_multiset()) == orig.to_multiset(),
            forall|k: int| 0 <= k < out@.len() - 1 ==> hit_before(#[trigger] out@[k], out@[k + 1]),
            forall|p: int, q: int|
                0 <= p < out@.len() && 0 <= q < rem@.len() ==> hit_before(
                    #[trigger] out@[p],
                    #[trigger] rem@[q],
                ),
        decreases rem@.len(),
    {
        let mut m: usize = 0;
        let mut i: usize = 1;
        while i < rem.len()
            invariant
                0 <= m < i <= rem@.len() || (m == 0 && i <= rem@.len()),
                m < rem@.len(),
                forall|q: int| 0 <= q < i ==> hit_before(rem@[m as int], #[trigger] rem@[q]),
            decreases rem@.len() - i,
        {
            if hit_strictly_before(&rem[i], &rem[m]) {
                let ghost m0 = m as int;
                m = i;
                proof {
                    assert forall|q: int| 0 <= q < i + 1 implies hit_before(
                        rem@[m as int],
                        #[trigger] rem@[q],
                    ) by {
                        if q < i {
                            lemma_hit_order_trans(rem@[i as int], rem@[m0], rem@[q]);
                        } else {
                            lemma_hit_order_total(rem@[i as int], rem@[i as int]);
                        }
                    }
                }
            } else {
                proof {
                    lemma_hit_order_total(rem@[m as int], rem@[i as int]);
                }
            }
            i += 1;
        }
        let ghost rem_before = rem@;
        let c = rem.remove(m);
        let ghost prev = out@;
        out.push(c);
        proof {
            rem_before.to_multiset_ensures();
            prev.to_multiset_ensures();
            assert(rem@ == rem_before.remove(m as int));
            assert(out@ == prev.push(c));
            assert(rem@.to_multiset() =~= rem_before.to_multiset().remove(c));
            assert(out@.to_multiset() =~= prev.to_multiset().insert(c));
            assert(rem_before.to_multiset().count(c) > 0) by {
                assert(rem_before.contains(c));
            }
            assert(out@.to_multiset().add(rem@.to_multiset()) =~= prev.to_multiset().add(
                rem_before.to_multiset(),
            ));
            assert forall|p: int, q: int|
                0 <= p < out@.len() && 0 <= q < rem@.len() implies hit_before(
                #[trigger] out@[p],
                #[trigger] rem@[q],
            ) by {
                if q < m {
                    assert(rem@[q] == rem_before[q]);
                } else {
                    assert(rem@[q] == rem_before[q + 1]);
                }
                if p < prev.len() {
                    assert(out@[p] == prev[p]);
                } else {
                    assert(out@[p] == c);
                }
            }
            assert forall|k: int| 0 <= k < out@.len() - 1 implies hit_before(
                #[trigger] out@[k],
                out@[k + 1],
            ) by {
                if k + 1 < prev.len() {
                    assert(out@[k] == prev[k] && out@[k + 1] == prev[k + 1]);
                } else {
                    assert(out@[k + 1] == c);
                }
            }
        }
    }
    proof {
        rem@.to_multiset_ensures();
        assert(rem@.to_multiset().len() == 0);
        assert(rem@.to_multiset() =~= Multiset::<SearchResult>::empty());
        assert(out@.to_multiset().add(Multiset::<SearchResult>::empty()) =~= out@.to_multiset());
        assert forall|x: SearchResult| out@.contains(x) implies orig.contains(x) by {
            out@.to_multiset_ensures();
            orig.to_multiset_ensures();
            assert(out@.to_multiset().count(x) > 0);
            assert(orig.to_multiset().count(x) > 0);
        }
    }
    out
}

/// Hits with `path` among the first `upto` hits.
pub open spec fn count_hits(s: Seq<SearchResult>, p: Seq<u8>, upto: int) -> int
    decreases upto,
{
    if upto <= 0 {
        0
    } else {
        count_hits(s, p, upto - 1) + if s[upto - 1].path@ == p {
            1int
        } else {
            0int
        }
    }
}

proof fn lemma_count_hits_prefix(s1: Seq<SearchResult>, s2: Seq<SearchResult>, p: Seq<u8>,
    upto: int)
    requires
        forall|t: int| 0 <= t < upto ==> s1[t] == s2[t],
    ensures
        count_hits(s1, p, upto) == count_hits(s2, p, upto),
    decreases upto,
{
    if upto > 0 {
        lemma_count_hits_prefix(s1, s2, p, upto - 1);
    }
}

proof fn lemma_count_hits_nonneg(s: Seq<SearchResult>, p: Seq<u8>, upto: int)
    ensures
        count_hits(s, p, upto) >= 0,
    decreases upto,
{
    if upto > 0 {
        lemma_count_hits_nonneg(s, p, upto - 1);
    }
}

/// The hits that survive the per-file cap: a hit stays when fewer than `k`
/// earlier hits carry its path.
pub open spec fn spec_cap(s: Seq<SearchResult>, k: int) -> Seq<SearchResult>
    decreases s.len(),
{
    if s.len() == 0 {
        Seq::empty()
    } else {
        let prefix = spec_cap(s.drop_last(), k);
        if count_hits(s, s.last().path@, s.len() - 1) < k {
            prefix.push(s.last())
        } else {
            prefix
        }
    }
}

/// Capping never keeps more than `k` hits of one path.
pub proof fn lemma_cap_count(s: Seq<SearchResult>, k: int, p: Seq<u8>)
    requires
        k >= 0,
    ensures
        count_hits(spec_cap(s, k), p, spec_cap(s, k).len() as int) == if count_hits(
            s,
            p,
            s.len() as int,
        ) < k {
            count_hits(s, p, s.len() as int)
        } else {
            k
        },
    decreases s.len(),
{
    if s.len() > 0 {
        let s2 = s.drop_last();
        let x = s.last();
        lemma_cap_count(s2, k, p);
        lemma_count_hits_prefix(s, s2, p, s2.len() as int);
        lemma_count_hits_prefix(s, s2, x.path@, s2.len() as int);
        let prefix = spec_cap(s2, k);
        if count_hits(s, x.path@, s.len() - 1) < k {
            assert(spec_cap(s, k) == prefix.push(x));
            lemma_count_hits_prefix(prefix.push(x), prefix, p, prefix.len() as int);
            if x.path@ != p {
                lemma_cap_count_other(s2, k, p, x);
            }
        } else {
            assert(spec_cap(s, k) == prefix);
            if x.path@ != p {
            }
        }
    }
}

proof fn lemma_cap_count_other(s2: Seq<SearchResult>, k: int, p: Seq<u8>, x: SearchResult)
    requires
        x.path@ != p,
    ensures
        count_hits(spec_cap(s2, k).push(x), p, spec_cap(s2, k).len() + 1int) == count_hits(
            spec_cap(s2, k),
            p,
            spec_cap(s2, k).len() as int,
        ),
{
    let prefix = spec_cap(s2, k);
    lemma_count_hits_prefix(prefix.push(x), prefix, p, prefix.len() as int);
}

/// Applies the per-file cap: walks the ranked list keeping at most `k` hits
/// per path, preserving order.
#[verifier::rlimit(100)]
pub fn apply_per_file_limit(hits: Vec<SearchResult>, k: usize) -> (r: Vec<SearchResult>)
    ensures
        r@ == spec_cap(hits@, k as int),
        forall|p: Seq<u8>| count_hits(r@, p, r@.len() as int) <= k as int,
{
    let mut out: Vec<SearchResult> = Vec::new();
    let mut rest = hits;
    let ghost orig = rest@;
    let n = rest.len();
    let mut i: usize = 0;
    proof {
        assert(orig.take(0) =~= Seq::<SearchResult>::empty());
    }
    while i < n
        invariant
            n == orig.len(),
            0 <= i <= n,
            rest@ == orig.subrange(i as int, n as int),
            out@ == spec_cap(orig.take(i as int), k as int),
        decreases n - i,
    {
        let h = rest.remove(0);
        proof {
            assert(rest@ =~= orig.subrange(i + 1, n as int));
            assert(h == orig[i as int]);
        }
        let mut cnt: usize = 0;
        let mut t: usize = 0;
        while t < out.len()
            invariant
                0 <= t <= out@.len(),
                cnt as int == count_hits(out@, orig[i as int].path@, t as int),
                cnt <= t,
                h == orig[i as int],
            decreases out@.len() - t,
        {
            proof {
                lemma_count_hits_nonneg(out@, orig[i as int].path@, t as int);
            }
            if bytes_eq(out[t].path.as_slice(), h.path.as_slice()) {
                cnt += 1;
            }
            t += 1;
        }
        proof {
            assert(orig.take(i + 1).drop_last() =~= orig.take(i as int));
            assert(orig.take(i + 1).last() == orig[i as int]);
            lemma_count_hits_prefix(orig.take(i + 1), orig, orig[i as int].path@, i as int);
            lemma_cap_count(orig.take(i as int), k as int, orig[i as int].path@);
            lemma_count_hits_prefix(orig.take(i as int), orig, orig[i as int].path@, i as int);
            lemma_count_hits_nonneg(orig, orig[i as int].path@, i as int);
        }
        if cnt < k {
            proof {
                assert(count_hits(orig, orig[i as int].path@, i as int) < k as int);
            }
            out.push(h);
            proof {
                assert(out@ =~= spec_cap(orig.take(i + 1), k as int));
            }
        } else {
            proof {
                assert(count_hits(orig, orig[i as int].path@, i as int) >= k as int);
                assert(out@ =~= spec_cap(orig.take(i + 1), k as int));
            }
        }
        i += 1;
    }
    proof {
        assert(orig.take(n as int) =~= orig);
        assert forall|p: Seq<u8>| count_hits(out@, p, out@.len() as int) <= k as int by {
            lemma_cap_count(orig, k as int, p);
            lemma_count_hits_nonneg(orig, p, orig.len() as int);
        }
    }
    out
}

/// How many candidates dense recall fetches for a requested `limit`:
/// oversample by two, with a floor that keeps recall healthy for small
/// limits; a retry after heavy post-filtering widens by four.
pub fn recall_limit(limit: usize, widen: bool) -> (r: usize)
    requires
        limit <= 0x3fff_ffff,
    ensures
        !widen ==> r == if 2 * limit > 100 {
            2 * limit
        } else {
            100
        },
        widen ==> r == if 4 * limit > 100 {
            4 * limit
        } else {
            100
        },
{
    let factor: usize = if widen {
        4
    } else {
        2
    };
    let scaled = factor * limit;
    if scaled > 100 {
        scaled
    } else {
        100
    }
}

/// Keep only hits whose path starts with `prefix`: the post-filter of a
/// path-scoped search.
pub fn filter_by_path(hits: Vec<SearchResult>, prefix: &[u8]) -> (r: Vec<SearchResult>)
    ensures
        r@ == hits@.filter(
            |h: SearchResult| crate::bytes::spec_starts_with(h.path@, prefix@),
        ),
{
    proof {
        reveal(Seq::filter);
    }
    let ghost pred = |h: SearchResult| crate::bytes::spec_starts_with(h.path@, prefix@);
    let mut out: Vec<SearchResult> = Vec::new();
    let mut rest = hits;
    let ghost orig = rest@;
    let n = rest.len();
    let mut i: usize = 0;
    proof {
        assert(orig.take(0).filter(pred) =~= Seq::<SearchResult>::empty());
    }
    while i < n
        invariant
            n == orig.len(),
            0 <= i <= n,
            rest@ == orig.subrange(i as int, n as int),
            out@ == orig.take(i as int).filter(pred),
            pred == (|h: SearchResult| crate::bytes::spec_starts_with(h.path@, prefix@)),
        decreases n - i,
    {
        let h = rest.remove(0);
        proof {
            reveal(Seq::filter);
            assert(rest@ =~= orig.subrange(i + 1, n as int));
            assert(h == orig[i as int]);
            assert(orig.take(i + 1).drop_last() =~= orig.take(i as int));
            assert(orig.take(i + 1).last() == orig[i as int]);
        }
        if crate::bytes::starts_with(h.path.as_slice(), prefix) {
            out.push(h);
            proof {
                assert(out@ =~= orig.take(i + 1).filter(pred));
            }
        } else {
            proof {
                assert(out@ =~= orig.take(i + 1).filter(pred));
            }
        }
        i += 1;
    }
    proof {
        assert(orig.take(n as int) =~= orig);
    }
    out
}

/// In an adjacently sorted list, every earlier hit ranks before every later
/// one.
proof fn lemma_sorted_all(s: Seq<SearchResult>, i: int, j: int)
    requires
        forall|k: int| 0 <= k < s.len() - 1 ==> hit_before(#[trigger] s[k], s[k + 1]),
        0 <= i <= j < s.len(),
    ensures
        hit_before(s[i], s[j]),
    decreases j - i,
{
    if i == j {
        lemma_hit_order_total(s[i], s[i]);
    } else {
        lemma_sorted_all(s, i, j - 1);
        lemma_hit_order_trans(s[i], s[j - 1], s[j]);
    }
}

/// Every capped hit is one of the input hits, at some input position.
proof fn lemma_cap_sub(s: Seq<SearchResult>, k: int)
    ensures
        forall|t: int|
            0 <= t < spec_cap(s, k).len() ==> exists|j: int|
                0 <= j < s.len() && s[j] == #[trigger] spec_cap(s, k)[t],
    decreases s.len(),
{
    if s.len() > 0 {
        let s2 = s.drop_last();
        lemma_cap_sub(s2, k);
        let c2 = spec_cap(s2, k);
        let c = spec_cap(s, k);
        assert forall|t: int| 0 <= t < c.len() implies exists|j: int|
            0 <= j < s.len() && s[j] == #[trigger] c[t] by {
            if count_hits(s, s.last().path@, s.len() - 1) < k {
                assert(c == c2.push(s.last()));
                if t < c2.len() {
                    assert(c[t] == c2[t]);
                    let j = choose|j: int| 0 <= j < s2.len() && s2[j] == c2[t];
                    assert(s[j] == c[t]);
                } else {
                    assert(s[s.len() - 1] == c[t]);
                }
            } else {
                assert(c == c2);
                let j = choose|j: int| 0 <= j < s2.len() && s2[j] == c2[t];
                assert(s[j] == c[t]);
            }
        }
    }
}

/// The per-file cap keeps the ranked order.
proof fn lemma_cap_sorted(s: Seq<SearchResult>, k: int)
    requires
        forall|t: int| 0 <= t < s.len() - 1 ==> hit_before(#[trigger] s[t], s[t + 1]),
    ensures
        forall|t: int|
            0 <= t < spec_cap(s, k).len() - 1 ==> hit_before(
                #[trigger] spec_cap(s, k)[t],
                spec_cap(s, k)[t + 1],
            ),
    decreases s.len(),
{
    if s.len() > 0 {
        let s2 = s.drop_last();
        assert(forall|t: int| 0 <= t < s2.len() ==> (#[trigger] s2[t]) == s[t]);
        lemma_cap_sorted(s2, k);
        lemma_cap_sub(s2, k);
        let c2 = spec_cap(s2, k);
        let c = spec_cap(s, k);
        if count_hits(s, s.last().path@, s.len() - 1) < k {
            assert(c == c2.push(s.last()));
            assert forall|t: int| 0 <= t < c.len() - 1 implies hit_before(
                #[trigger] c[t],
                c[t + 1],
            ) by {
                if t + 1 < c2.len() {
                    assert(c[t] == c2[t] && c[t + 1] == c2[t + 1]);
                } else {
                    assert(c[t] == c2[t] && c[t + 1] == s.last());
                    let j = choose|j: int| 0 <= j < s2.len() && s2[j] == c2[t];
                    lemma_sorted_all(s, j, s.len() - 1);
                }
            }
        } else {
            assert(c == c2);
        }
    }
}

/// `out` is the complete answer derived from the ranking `s`: `s` is a
/// rank-ordered permutation of the boosted candidates, and `out` is the
/// first `limit` hits of `s` after the per-file cap.
pub open spec fn spec_ranked(
    cand: Seq<SearchResult>,
    limit: int,
    k: int,
    s: Seq<SearchResult>,
    out: Seq<SearchResult>,
) -> bool {
    &&& s.to_multiset() == cand.map_values(|h: SearchResult| spec_boost_hit(h)).to_multiset()
    &&& forall|t: int| 0 <= t < s.len() - 1 ==> hit_before(#[trigger] s[t], s[t + 1])
    &&& {
        let capped = if k > 0 {
            spec_cap(s, k)
        } else {
            s
        };
        out == capped.take(
            if capped.len() <= limit {
                capped.len() as int
            } else {
                limit
            },
        )
    }
}

/// The search post-ranker: boosts, sorts, caps per file, truncates.

pub struct SearchEngine;

impl SearchEngine {
    pub fn new() -> (r: SearchEngine) {
        SearchEngine
    }

    /// Ranks reranked candidates into the final response order: structural
    /// boost, descending sort with `(path, start_line)` tie-break, at most
    /// `per_file_limit` hits per path (when the limit is positive), at most
    /// `limit` hits in all. The result is complete: it is the leading
    /// `limit` hits of the capped ranking of the boosted candidates, for
    /// some ranking `s` — a permutation of the boosted candidates in rank
    /// order.
    #[verifier::rlimit(100)]
    #[verifier::spinoff_prover]
    pub fn search(
        &self,
        candidates: Vec<SearchResult>,
        limit: usize,
        per_file_limit: usize,
    ) -> (r: Vec<SearchResult>)
        ensures
            r@.len() <= limit,
            forall|t: int| 0 <= t < r@.len() - 1 ==> hit_before(#[trigger] r@[t], r@[t + 1]),
            per_file_limit > 0 ==> forall|p: Seq<u8>|
                count_hits(r@, p, r@.len() as int) <= per_file_limit as int,
            exists|s: Seq<SearchResult>|
                #[trigger] spec_ranked(candidates@, limit as int, per_file_limit as int, s,
                r@),
            forall|t: int|
                0 <= t < r@.len() ==> exists|j: int|
                    0 <= j < candidates@.len() && same_hit_body(
                        #[trigger] r@[t],
                        candidates@[j],
                    ) && r@[t].score as int == spec_boosted_score(candidates@[j]),
    {
        let ghost cand = candidates@;
        let boosted = apply_structural_boost(candidates);
        let ghost boosted_v = boosted@;
        let sorted = sort_hits(boosted);
        let ghost sorted_v = sorted@;
        proof {
            sorted_v.to_multiset_ensures();
            boosted_v.to_multiset_ensures();
        }
        let mut capped = if per_file_limit > 0 {
            apply_per_file_limit(sorted, per_file_limit)
        } else {
            sorted
        };
        let ghost capped_v = capped@;
        proof {
            if per_file_limit > 0 {
                lemma_cap_sorted(sorted_v, per_file_limit as int);
                lemma_cap_sub(sorted_v, per_file_limit as int);
            }
            assert forall|t: int| 0 <= t < capped_v.len() implies exists|j: int|
                0 <= j < cand.len() && same_hit_body(#[trigger] capped_v[t], cand[j])
                    && capped_v[t].score as int == spec_boosted_score(cand[j]) by {
                let x = capped_v[t];
                assert(sorted_v.contains(x)) by {
                    if per_file_limit > 0 {
                        let j0 = choose|j0: int|
                            0 <= j0 < sorted_v.len() && sorted_v[j0] == #[trigger] capped_v[t];
                        assert(sorted_v[j0] == x);
                    } else {
                        assert(capped_v[t] == sorted_v[t]);
                    }
                }
                assert(boosted_v.contains(x));
                let j = choose|j: int| 0 <= j < boosted_v.len() && boosted_v[j] == x;
                assert(same_hit_body(boosted_v[j], cand[j]));
            }
        }
        capped.truncate(limit);
        proof {
            if capped_v.len() > limit {
                assert(capped@ =~= capped_v.subrange(0, limit as int));
            }
            assert(spec_ranked(cand, limit as int, per_file_limit as int, sorted_v,
                capped@)) by {
                assert(boosted_v == cand.map_values(|h: SearchResult| spec_boost_hit(h)));
                if capped_v.len() <= limit {
                    assert(capped@ =~= capped_v.take(capped_v.len() as int));
                } else {
                    assert(capped@ =~= capped_v.take(limit as int));
                }
            }
            assert forall|t: int| 0 <= t < capped@.len() - 1 implies hit_before(
                #[trigger] capped@[t],
                capped@[t + 1],
            ) by {
                assert(capped@[t] == capped_v[t] && capped@[t + 1] == capped_v[t + 1]);
            }
            if per_file_limit > 0 {
                assert forall|p: Seq<u8>| count_hits(capped@, p, capped@.len() as int)
                    <= per_file_limit as int by {
                    lemma_count_hits_truncate(capped_v, capped@, p);
                    lemma_count_hits_nonneg(capped_v, p, capped@.len() as int);
                }
            }
        }
        capped
    }
}

/// Counting over a prefix never exceeds counting over the whole.
proof fn lemma_count_hits_truncate(full: Seq<SearchResult>, pre: Seq<SearchResult>, p: Seq<u8>)
    requires
        pre.len() <= full.len(),
        forall|t: int| 0 <= t < pre.len() ==> pre[t] == full[t],
    ensures
        count_hits(pre, p, pre.len() as int) <= count_hits(full, p, full.len() as int),
    decreases full.len(),
{
    lemma_count_hits_prefix(pre, full, p, pre.len() as int);
    lemma_count_hits_mono(full, p, pre.len() as int, full.len() as int);
}

proof fn lemma_count_hits_mono(s: Seq<SearchResult>, p: Seq<u8>, a: int, b: int)
    requires
        a <= b,
    ensures
        count_hits(s, p, a) <= count_hits(s, p, b),
    decreases b - a,
{
    if a < b {
        lemma_count_hits_mono(s, p, a, b - 1);
    }
}

} // verus!
