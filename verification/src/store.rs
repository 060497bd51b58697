//! The vector-record table: per-store records of embedded chunks, with
//! atomic per-file replacement. The embedding payloads are opaque bytes —
//! what the table guarantees is the shape of its metadata: one hash per
//! path, densely numbered chunk indices, and uniform embedding length.

use vstd::prelude::*;
use crate::chunker::ChunkType;
use crate::bytes::bytes_eq;

verus! {

/// One embedded chunk as the store keeps it.
pub struct VectorRecord {
    /// `{path}:{chunk_index}`.
    pub id: Vec<u8>,
    /// Repo-relative path of the source file.
    pub path: Vec<u8>,
    /// Content hash of the whole file at indexing time, in hex.
    pub hash: Vec<u8>,
    /// The chunk's bytes.
    pub content: Vec<u8>,
    pub start_line: u32,
    pub end_line: u32,
    /// Position of the chunk within its file, dense from zero.
    pub chunk_index: u32,
    pub is_anchor: bool,
    pub chunk_type: ChunkType,
    /// First crumb of the chunk's context.
    pub context_prev: Vec<u8>,
    /// Last crumb of the chunk's context.
    pub context_next: Vec<u8>,
    /// Dense embedding, opaque quantized bytes of fixed length.
    pub dense: Vec<u8>,
    /// Late-interaction token matrix, opaque quantized bytes.
    pub colbert: Vec<u8>,
    /// Bit pattern of the quantization scale.
    pub colbert_scale_bits: u32,
}

/// Keep every record whose path is not `p`.
pub open spec fn keep_other(p: Seq<u8>) -> spec_fn(VectorRecord) -> bool {
    |r: VectorRecord| r.path@ != p
}

/// Records with `path` among the first `upto` records.
pub open spec fn count_path(s: Seq<VectorRecord>, p: Seq<u8>, upto: int) -> int
    decreases upto,
{
    if upto <= 0 {
        0
    } else {
        count_path(s, p, upto - 1) + if s[upto - 1].path@ == p {
            1int
        } else {
            0int
        }
    }
}

/// Counting only reads the first `upto` records.
pub proof fn lemma_count_path_prefix(
    s1: Seq<VectorRecord>,
    s2: Seq<VectorRecord>,
    p: Seq<u8>,
    upto: int,
)
    requires
        forall|t: int| 0 <= t < upto ==> s1[t] == s2[t],
    ensures
        count_path(s1, p, upto) == count_path(s2, p, upto),
    decreases upto,
{
    if upto > 0 {
        lemma_count_path_prefix(s1, s2, p, upto - 1);
    }
}

pub proof fn lemma_count_path_nonneg(s: Seq<VectorRecord>, p: Seq<u8>, upto: int)
    ensures
        count_path(s, p, upto) >= 0,
    decreases upto,
{
    if upto > 0 {
        lemma_count_path_nonneg(s, p, upto - 1);
    }
}

/// When no record carries `p`, the count of `p` is zero.
pub proof fn lemma_no_path_zero_count(s: Seq<VectorRecord>, p: Seq<u8>, upto: int)
    requires
        upto <= s.len(),
        forall|t: int| 0 <= t < s.len() ==> (#[trigger] s[t]).path@ != p,
    ensures
        count_path(s, p, upto) == 0,
    decreases upto,
{
    if upto > 0 {
        lemma_no_path_zero_count(s, p, upto - 1);
    }
}

/// Counting `p` across a concatenation whose left part holds no `p` counts
/// only the right part.
pub proof fn lemma_count_path_concat(
    left: Seq<VectorRecord>,
    right: Seq<VectorRecord>,
    p: Seq<u8>,
)
    requires
        forall|t: int| 0 <= t < left.len() ==> (#[trigger] left[t]).path@ != p,
        forall|t: int| 0 <= t < right.len() ==> (#[trigger] right[t]).path@ == p,
    ensures
        count_path(left + right, p, left.len() + right.len() as int) == right.len(),
    decreases right.len(),
{
    if right.len() == 0 {
        assert(forall|t: int|
            0 <= t < (left + right).len() ==> (#[trigger] (left + right)[t]).path@ != p);
        lemma_no_path_zero_count(left + right, p, left.len() as int);
    } else {
        let right2 = right.drop_last();
        assert(forall|t: int| 0 <= t < right2.len() ==> (#[trigger] right2[t]) == right[t]);
        lemma_count_path_concat(left, right2, p);
        assert((left + right).take(left.len() + right.len() - 1) =~= left + right2);
        lemma_count_path_prefix(
            left + right,
            left + right2,
            p,
            left.len() + right2.len() as int,
        );
        assert((left + right)[left.len() + right.len() - 1int] == right.last());
    }
}

/// The store's shape invariants: records of one path share one hash, chunk
/// indices are dense in file order, and embeddings have one length.
pub open spec fn store_wf(s: Seq<VectorRecord>, dense_len: int) -> bool {
    &&& forall|i: int, j: int|
        0 <= i < s.len() && 0 <= j < s.len() && (#[trigger] s[i]).path@ == (
        #[trigger] s[j]).path@ ==> s[i].hash@ == s[j].hash@
    &&& forall|i: int| 0 <= i < s.len() ==> (#[trigger] s[i]).dense@.len() == dense_len
    &&& forall|i: int|
        0 <= i < s.len() ==> (#[trigger] s[i]).chunk_index as int == count_path(
            s,
            s[i].path@,
            i,
        )
}

/// Dropping the last record keeps the store well-formed.
proof fn lemma_store_wf_drop_last(s: Seq<VectorRecord>, dense_len: int)
    requires
        store_wf(s, dense_len),
        s.len() > 0,
    ensures
        store_wf(s.drop_last(), dense_len),
{
    let s2 = s.drop_last();
    assert(forall|t: int| 0 <= t < s2.len() ==> (#[trigger] s2[t]) == s[t]);
    assert forall|i: int| 0 <= i < s2.len() implies (#[trigger] s2[i]).chunk_index as int
        == count_path(s2, s2[i].path@, i) by {
        lemma_count_path_prefix(s2, s, s2[i].path@, i);
    }
}

/// Filtering one path out leaves the counts of every other path unchanged.
proof fn lemma_filter_count_other(s: Seq<VectorRecord>, p: Seq<u8>, q: Seq<u8>)
    requires
        q != p,
    ensures
        count_path(
            s.filter(keep_other(p)),
            q,
            s.filter(keep_other(p)).len() as int,
        ) == count_path(s, q, s.len() as int),
    decreases s.len(),
{
    reveal(Seq::filter);
    if s.len() > 0 {
        let s2 = s.drop_last();
        let x = s.last();
        lemma_filter_count_other(s2, p, q);
        lemma_count_path_prefix(s, s2, q, s2.len() as int);
        let f2 = s2.filter(keep_other(p));
        if keep_other(p)(x) {
            assert(s.filter(keep_other(p)) == f2.push(x));
            lemma_count_path_prefix(f2.push(x), f2, q, f2.len() as int);
            assert(count_path(s, q, s.len() as int) == count_path(s2, q, s2.len() as int)
                + if x.path@ == q {
                1int
            } else {
                0int
            });
        } else {
            assert(s.filter(keep_other(p)) == f2);
            assert(x.path@ == p && p != q);
            assert(count_path(s, q, s.len() as int) == count_path(s2, q, s2.len() as int));
        }
    }
}

/// Every element the filter keeps is an element of the list.
pub proof fn lemma_filter_sub(s: Seq<VectorRecord>, pred: spec_fn(VectorRecord) -> bool)
    ensures
        forall|i: int|
            0 <= i < s.filter(pred).len() ==> exists|j: int|
                0 <= j < s.len() && s[j] == #[trigger] s.filter(pred)[i],
    decreases s.len(),
{
    reveal(Seq::filter);
    if s.len() > 0 {
        let s2 = s.drop_last();
        lemma_filter_sub(s2, pred);
        let f2 = s2.filter(pred);
        let f = s.filter(pred);
        assert forall|i: int| 0 <= i < f.len() implies exists|j: int|
            0 <= j < s.len() && s[j] == #[trigger] f[i] by {
            if pred(s.last()) {
                assert(f == f2.push(s.last()));
                if i < f2.len() {
                    assert(f[i] == f2[i]);
                    let j = choose|j: int| 0 <= j < s2.len() && s2[j] == f2[i];
                    assert(s[j] == f[i]);
                } else {
                    assert(s[s.len() - 1] == f[i]);
                }
            } else {
                assert(f == f2);
                let j = choose|j: int| 0 <= j < s2.len() && s2[j] == f2[i];
                assert(s[j] == f[i]);
            }
        }
    }
}

/// Removing one path's records keeps the store well-formed.
proof fn lemma_filter_preserves_wf(s: Seq<VectorRecord>, p: Seq<u8>, dense_len: int)
    requires
        store_wf(s, dense_len),
    ensures
        store_wf(s.filter(keep_other(p)), dense_len),
    decreases s.len(),
{
    reveal(Seq::filter);
    if s.len() > 0 {
        let s2 = s.drop_last();
        let x = s.last();
        lemma_store_wf_drop_last(s, dense_len);
        lemma_filter_preserves_wf(s2, p, dense_len);
        let f2 = s2.filter(keep_other(p));
        let f = s.filter(keep_other(p));
        if keep_other(p)(x) {
            assert(f == f2.push(x));
            assert forall|i: int| 0 <= i < f.len() implies (
            #[trigger] f[i]).chunk_index as int == count_path(f, f[i].path@, i) by {
                if i < f2.len() {
                    assert(f[i] == f2[i]);
                    lemma_count_path_prefix(f, f2, f[i].path@, i);
                } else {
                    assert(f[i] == x);
                    lemma_count_path_prefix(f, f2, x.path@, f2.len() as int);
                    lemma_filter_count_other(s2, p, x.path@);
                    assert(x.chunk_index as int == count_path(s, x.path@, s.len() - 1));
                    lemma_count_path_prefix(s, s2, x.path@, s2.len() as int);
                }
            }
            lemma_filter_sub(s, keep_other(p));
            assert forall|a: int, b: int|
                0 <= a < f.len() && 0 <= b < f.len() && (#[trigger] f[a]).path@ == (
                #[trigger] f[b]).path@ implies f[a].hash@ == f[b].hash@ by {
                let ia = choose|t: int| 0 <= t < s.len() && s[t] == f[a];
                let ib = choose|t: int| 0 <= t < s.len() && s[t] == f[b];
                assert(s[ia].hash@ == s[ib].hash@);
            }
            assert forall|i: int| 0 <= i < f.len() implies (#[trigger] f[i]).dense@.len()
                == dense_len by {
                if i < f2.len() {
                    assert(f[i] == f2[i]);
                } else {
                    assert(f[i] == x);
                }
            }
        } else {
            assert(f == f2);
        }
    }
}

/// Every record the filter keeps misses the dropped path.
pub proof fn lemma_filter_keeps_other(s: Seq<VectorRecord>, p: Seq<u8>)
    ensures
        forall|t: int|
            0 <= t < s.filter(keep_other(p)).len() ==> (#[trigger] s.filter(keep_other(p))[
                t
            ]).path@ != p,
    decreases s.len(),
{
    reveal(Seq::filter);
    if s.len() > 0 {
        let s2 = s.drop_last();
        lemma_filter_keeps_other(s2, p);
        let f2 = s2.filter(keep_other(p));
        let f = s.filter(keep_other(p));
        if keep_other(p)(s.last()) {
            assert(f == f2.push(s.last()));
            assert(forall|t: int|
                0 <= t < f.len() ==> (#[trigger] f[t]) == if t < f2.len() {
                    f2[t]
                } else {
                    s.last()
                });
        }
    }
}

/// The per-store table of embedded chunks.
pub struct StoreTable {
    dense_len: usize,
    records: Vec<VectorRecord>,
}

impl StoreTable {
    /// The records, in insertion order.
    pub closed spec fn view(&self) -> Seq<VectorRecord> {
        self.records@
    }

    /// The byte length every dense embedding must have.
    pub closed spec fn spec_dense_len(&self) -> int {
        self.dense_len as int
    }

    pub closed spec fn wf(&self) -> bool {
        store_wf(self.records@, self.dense_len as int)
    }

    /// An empty table for embeddings of `dense_len` bytes.
    pub fn new(dense_len: usize) -> (r: StoreTable)
        ensures
            r.wf(),
            r.view().len() == 0,
            r.spec_dense_len() == dense_len,
    {
        StoreTable { dense_len, records: Vec::new() }
    }

    /// True when the store holds no records at all.
    pub fn is_empty(&self) -> (r: bool)
        ensures
            r == (self.view().len() == 0),
    {
        self.records.len() == 0
    }

    pub fn len(&self) -> (r: usize)
        ensures
            r == self.view().len(),
    {
        self.records.len()
    }

    /// The record at `i`.
    pub fn get(&self, i: usize) -> (r: &VectorRecord)
        requires
            i < self.view().len(),
        ensures
            *r == self.view()[i as int],
    {
        &self.records[i]
    }

    /// How many records carry `path`.
    pub fn count_for_path(&self, path: &[u8]) -> (r: usize)
        ensures
            r as int == count_path(self.view(), path@, self.view().len() as int),
    {
        let mut cnt: usize = 0;
        let mut i: usize = 0;
        while i < self.records.len()
            invariant
                0 <= i <= self.records@.len(),
                cnt as int == count_path(self.records@, path@, i as int),
                cnt <= i,
            decreases self.records@.len() - i,
        {
            proof {
                lemma_count_path_nonneg(self.records@, path@, i as int);
            }
            if bytes_eq(self.records[i].path.as_slice(), path) {
                cnt += 1;
            }
            i += 1;
        }
        cnt
    }

    /// Removes every record of `path`; all other records stay, in order.
    #[verifier::rlimit(100)]
    pub fn delete_file(&mut self, path: &[u8])
        requires
            old(self).wf(),
        ensures
            final(self).wf(),
            final(self).spec_dense_len() == old(self).spec_dense_len(),
            final(self).view() == old(self).view().filter(keep_other(path@)),
            forall|t: int|
                0 <= t < final(self).view().len() ==> (#[trigger] final(self).view()[t]).path@
                    != path@,
    {
        proof {
            reveal(Seq::filter);
        }
        let ghost orig = self.records@;
        let ghost pred = keep_other(path@);
        let mut i: usize = 0;
        let ghost mut j: int = 0;
        while i < self.records.len()
            invariant
                0 <= j <= orig.len(),
                i as int == orig.take(j).filter(pred).len(),
                self.records@ == orig.take(j).filter(pred) + orig.skip(j),
                pred == keep_other(path@),
                i <= self.records@.len(),
                orig == old(self).view(),
                self.dense_len == old(self).dense_len,
            decreases orig.len() - j,
        {
            proof {
                reveal(Seq::filter);
                orig.take(j).lemma_filter_len(pred);
                assert(self.records@[i as int] == orig[j]);
                assert(orig.take(j + 1).drop_last() =~= orig.take(j));
                assert(orig.take(j + 1).last() == orig[j]);
            }
            if bytes_eq(self.records[i].path.as_slice(), path) {
                let ghost prev = self.records@;
                let _ = self.records.remove(i);
                proof {
                    reveal(Seq::filter);
                    assert(orig.take(j + 1).filter(pred) == orig.take(j).filter(pred));
                    assert(orig.skip(j).drop_first() =~= orig.skip(j + 1));
                    assert(self.records@ =~= orig.take(j + 1).filter(pred) + orig.skip(
                        j + 1,
                    ));
                }
            } else {
                proof {
                    reveal(Seq::filter);
                    assert(orig.take(j + 1).filter(pred) =~= orig.take(j).filter(pred).push(
                        orig[j],
                    ));
                    assert(self.records@ =~= orig.take(j + 1).filter(pred) + orig.skip(
                        j + 1,
                    ));
                }
                i += 1;
            }
            proof {
                j = j + 1;
            }
        }
        proof {
            assert(orig.take(j) =~= orig);
            assert(orig.skip(j) =~= Seq::<VectorRecord>::empty());
            assert(self.records@ =~= orig.filter(pred));
            lemma_filter_preserves_wf(orig, path@, self.dense_len as int);
            lemma_filter_keeps_other(orig, path@);
        }
    }

    /// Replaces every record of the batch's path with the batch: the atomic
    /// per-file write. The batch must be one file's records in order: one
    /// path, one hash, indices dense from zero, embeddings of the table's
    /// length.
    #[verifier::rlimit(100)]
    pub fn insert_batch(&mut self, records: Vec<VectorRecord>)
        requires
            old(self).wf(),
            records@.len() > 0,
            forall|i: int|
                0 <= i < records@.len() ==> {
                    let r = #[trigger] records@[i];
                    r.path@ == records@[0].path@ && r.hash@ == records@[0].hash@
                        && r.chunk_index as int == i && r.dense@.len() == old(
                        self,
                    ).spec_dense_len()
                },
        ensures
            final(self).wf(),
            final(self).spec_dense_len() == old(self).spec_dense_len(),
            final(self).view() == old(self).view().filter(keep_other(records@[0].path@))
                + records@,
            forall|i: int|
                0 <= i < final(self).view().len() && (#[trigger] final(self).view()[i]).path@
                    == records@[0].path@ ==> final(self).view()[i].hash@ == records@[0].hash@,
    {
        let ghost batch = records@;
        let ghost p = records@[0].path@;
        let path_copy = crate::bytes::sub_vec(
            records[0].path.as_slice(),
            0,
            records[0].path.len(),
        );
        assert(path_copy@ == p);
        self.delete_file(path_copy.as_slice());
        let ghost kept = self.records@;
        let mut batch_vec = records;
        let n = batch_vec.len();
        let mut i: usize = 0;
        proof {
            assert(self.records@ =~= kept + batch.take(0));
        }
        while i < n
            invariant
                n == batch.len(),
                0 <= i <= n,
                batch_vec@ == batch.subrange(i as int, n as int),
                self.records@ == kept + batch.take(i as int),
                store_wf(kept, self.dense_len as int),
                forall|t: int| 0 <= t < kept.len() ==> (#[trigger] kept[t]).path@ != p,
                forall|t: int|
                    0 <= t < batch.len() ==> {
                        let r = #[trigger] batch[t];
                        r.path@ == p && r.hash@ == batch[0].hash@ && r.chunk_index as int == t
                            && r.dense@.len() == self.dense_len
                    },
                store_wf(self.records@, self.dense_len as int),
            decreases n - i,
        {
            let ghost prev = self.records@;
            let r = batch_vec.remove(0);
            let ghost rv = batch[i as int];
            proof {
                assert(batch_vec@ =~= batch.subrange(i + 1, n as int));
                assert(rv.path@ == p);
            }
            self.records.push(r);
            proof {
                assert(self.records@ =~= kept + batch.take(i + 1));
                assert forall|t: int| 0 <= t < self.records@.len() implies (
                #[trigger] self.records@[t]).chunk_index as int == count_path(
                    self.records@,
                    self.records@[t].path@,
                    t,
                ) by {
                    if t < prev.len() {
                        assert(self.records@[t] == prev[t]);
                        lemma_count_path_prefix(
                            self.records@,
                            prev,
                            self.records@[t].path@,
                            t,
                        );
                    } else {
                        assert(self.records@[t] == rv);
                        lemma_count_path_prefix(self.records@, prev, p, t);
                        assert(forall|t2: int|
                            0 <= t2 < batch.take(i as int).len() ==> (#[trigger] batch.take(
                                i as int,
                            )[t2]).path@ == p);
                        lemma_count_path_concat(kept, batch.take(i as int), p);
                    }
                }
                assert forall|a: int, b: int|
                    0 <= a < self.records@.len() && 0 <= b < self.records@.len() && (
                    #[trigger] self.records@[a]).path@ == (
                    #[trigger] self.records@[b]).path@ implies self.records@[a].hash@
                    == self.records@[b].hash@ by {
                    if a >= kept.len() && b < kept.len() {
                        assert(self.records@[a].path@ == p);
                        assert(kept[b].path@ != p);
                    }
                    if b >= kept.len() && a < kept.len() {
                        assert(self.records@[b].path@ == p);
                        assert(kept[a].path@ != p);
                    }
                }
            }
            i += 1;
        }
        proof {
            assert(batch.take(n as int) =~= batch);
        }
    }
}

} // verus!
