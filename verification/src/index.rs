//! The indexer: one vector store and one manifest, moving together. Every
//! per-file write replaces the file's records and its manifest entry in one
//! step, so the two never disagree; the manifest's hash gate makes a second
//! pass over unchanged files a no-op.

use vstd::prelude::*;
use crate::bytes::{bytes_eq, sub_vec, dec_digits, spec_dec_digits};
use crate::chunker::Chunk;
use crate::embed::HybridEmbedding;
use crate::hash::spec_content_hash;
use crate::manifest::Manifest;
use crate::store::{StoreTable, VectorRecord, keep_other, lemma_filter_sub, lemma_filter_keeps_other};

verus! {

/// A file needs indexing when the manifest does not list it at this hash.
pub open spec fn spec_needs_index(m: Map<Seq<u8>, Seq<u8>>, path: Seq<u8>, hash: Seq<u8>) -> bool {
    !(m.contains_key(path) && m[path] == hash)
}

/// The vector store and its manifest, kept coherent.
pub struct Index {
    pub store: StoreTable,
    pub manifest: Manifest,
}

impl Index {
    /// Every record's path is in the manifest, at the record's hash.
    pub open spec fn coherent(&self) -> bool {
        forall|i: int|
            0 <= i < self.store.view().len() ==> {
                let r = #[trigger] self.store.view()[i];
                self.manifest.view().contains_key(r.path@) && self.manifest.view()[r.path@]
                    == r.hash@
            }
    }

    pub open spec fn wf(&self) -> bool {
        self.store.wf() && self.manifest.wf() && self.coherent()
    }

    /// An empty index for embeddings of `dense_len` bytes.
    pub fn new(dense_len: usize) -> (r: Index)
        ensures
            r.wf(),
            r.store.view().len() == 0,
            r.manifest.view() == Map::<Seq<u8>, Seq<u8>>::empty(),
            r.store.spec_dense_len() == dense_len,
    {
        Index { store: StoreTable::new(dense_len), manifest: Manifest::new() }
    }

    /// Whether `path` must be (re)indexed for content hash `hash`: true
    /// exactly when the manifest does not list the path at that hash.
    pub fn needs_index(&self, path: &[u8], hash: &[u8]) -> (r: bool)
        requires
            self.manifest.wf(),
        ensures
            r == spec_needs_index(self.manifest.view(), path@, hash@),
    {
        match self.manifest.get_hash(path) {
            Some(h) => !bytes_eq(h.as_slice(), hash),
            None => true,
        }
    }

    /// Writes one file: replaces its records and records its hash, in one
    /// step. The batch must be one file's records: one path, one hash,
    /// indices dense from zero, embeddings of the store's length.
    #[verifier::rlimit(100)]
    pub fn upsert_file(&mut self, records: Vec<VectorRecord>)
        requires
            old(self).wf(),
            records@.len() > 0,
            forall|i: int|
                0 <= i < records@.len() ==> {
                    let r = #[trigger] records@[i];
                    r.path@ == records@[0].path@ && r.hash@ == records@[0].hash@
                        && r.chunk_index as int == i && r.dense@.len() == old(
                        self
                    ).store.spec_dense_len()
                },
        ensures
            final(self).wf(),
            final(self).manifest.view() == old(self).manifest.view().insert(
                records@[0].path@,
                records@[0].hash@,
            ),
            final(self).store.view() == old(self).store.view().filter(
                keep_other(records@[0].path@),
            ) + records@,
            forall|i: int|
                0 <= i < final(self).store.view().len() && (#[trigger] final(self).store.view()[
                    i
                ]).path@ == records@[0].path@ ==> final(self).store.view()[i].hash@
                    == records@[0].hash@,
    {
        let ghost p = records@[0].path@;
        let ghost h = records@[0].hash@;
        let ghost old_store = self.store.view();
        let path_copy = sub_vec(records[0].path.as_slice(), 0, records[0].path.len());
        let hash_copy = sub_vec(records[0].hash.as_slice(), 0, records[0].hash.len());
        proof {
            assert(path_copy@ =~= p);
            assert(hash_copy@ =~= h);
        }
        self.store.insert_batch(records);
        self.manifest.set_hash(path_copy, hash_copy);
        proof {
            let kept = old_store.filter(keep_other(p));
            lemma_filter_sub(old_store, keep_other(p));
            lemma_filter_keeps_other(old_store, p);
            assert forall|i: int| 0 <= i < self.store.view().len() implies {
                let r = #[trigger] self.store.view()[i];
                self.manifest.view().contains_key(r.path@) && self.manifest.view()[r.path@]
                    == r.hash@
            } by {
                let r = self.store.view()[i];
                if i < kept.len() {
                    assert(r == kept[i]);
                    assert(r.path@ != p);
                    let j = choose|j: int|
                        0 <= j < old_store.len() && old_store[j] == kept[i];
                    assert(old(self).store.view()[j] == r);
                    assert(old(self).manifest.view().contains_key(r.path@));
                } else {
                    assert(r.path@ == p && r.hash@ == h);
                }
            }
        }
    }

    /// Forgets one file: removes its records and its manifest entry.
    pub fn delete_file(&mut self, path: &[u8])
        requires
            old(self).wf(),
        ensures
            final(self).wf(),
            final(self).manifest.view() == old(self).manifest.view().remove(path@),
            final(self).store.view() == old(self).store.view().filter(keep_other(path@)),
            forall|i: int|
                0 <= i < final(self).store.view().len() ==> (#[trigger] final(self).store.view()[
                    i
                ]).path@ != path@,
            !final(self).manifest.view().contains_key(path@),
    {
        let ghost old_store = self.store.view();
        self.store.delete_file(path);
        self.manifest.remove(path);
        proof {
            lemma_filter_sub(old_store, keep_other(path@));
            assert forall|i: int| 0 <= i < self.store.view().len() implies {
                let r = #[trigger] self.store.view()[i];
                self.manifest.view().contains_key(r.path@) && self.manifest.view()[r.path@]
                    == r.hash@
            } by {
                let r = self.store.view()[i];
                assert(r.path@ != path@);
                let j = choose|j: int|
                    0 <= j < old_store.len() && old_store[j] == self.store.view()[i];
                assert(old(self).store.view()[j] == r);
                assert(old(self).manifest.view().contains_key(r.path@));
            }
        }
    }
}

/// Builds the store records of one file from its chunks and their
/// embeddings: record `i` carries chunk `i`, embedding `i`, the file's path
/// and hash, the id `{path}:{i}`, and the chunk's first and last crumbs.
#[verifier::rlimit(100)]
pub fn build_records(
    path: &[u8],
    hash: &[u8],
    chunks: &Vec<Chunk>,
    embeds: Vec<HybridEmbedding>,
    dense_len: usize,
) -> (r: Vec<VectorRecord>)
    requires
        chunks@.len() == embeds@.len(),
        chunks@.len() <= 0xffff_ffff,
        forall|i: int|
            0 <= i < embeds@.len() ==> (#[trigger] embeds@[i]).dense@.len() == dense_len,
        forall|i: int|
            0 <= i < chunks@.len() ==> (#[trigger] chunks@[i]).start_line <= 0xffff_ffff && (
            #[trigger] chunks@[i]).end_line <= 0xffff_ffff,
    ensures
        r@.len() == chunks@.len(),
        forall|i: int|
            0 <= i < r@.len() ==> {
                let rec = #[trigger] r@[i];
                rec.path@ == path@ && rec.hash@ == hash@ && rec.chunk_index as int == i
                    && rec.dense@ == embeds@[i].dense@ && rec.colbert@ == embeds@[i].colbert@
                    && rec.colbert_scale_bits == embeds@[i].colbert_scale_bits
                    && rec.dense@.len() == dense_len && rec.content@ == chunks@[i].content@
                    && rec.start_line as int == chunks@[i].start_line as int
                    && rec.end_line as int == chunks@[i].end_line as int && rec.is_anchor
                    == chunks@[i].is_anchor && rec.chunk_type == chunks@[i].chunk_type
                    && rec.id@ == path@ + seq![58u8] + spec_dec_digits(i as nat)
            },
{
    let mut out: Vec<VectorRecord> = Vec::new();
    let mut rest = embeds;
    let n = chunks.len();
    let ghost all_embeds = rest@;
    let mut i: usize = 0;
    while i < n
        invariant
            n == chunks@.len(),
            n <= 0xffff_ffff,
            chunks@.len() == all_embeds.len(),
            0 <= i <= n,
            rest@ == all_embeds.subrange(i as int, n as int),
            out@.len() == i,
            forall|t: int|
                0 <= t < all_embeds.len() ==> (#[trigger] all_embeds[t]).dense@.len()
                    == dense_len,
            forall|t: int|
                0 <= t < chunks@.len() ==> (#[trigger] chunks@[t]).start_line <= 0xffff_ffff
                    && (#[trigger] chunks@[t]).end_line <= 0xffff_ffff,
            forall|t: int|
                0 <= t < out@.len() ==> {
                    let rec = #[trigger] out@[t];
                    rec.path@ == path@ && rec.hash@ == hash@ && rec.chunk_index as int == t
                        && rec.dense@ == all_embeds[t].dense@ && rec.colbert@
                        == all_embeds[t].colbert@ && rec.colbert_scale_bits
                        == all_embeds[t].colbert_scale_bits && rec.dense@.len() == dense_len
                        && rec.content@ == chunks@[t].content@ && rec.start_line as int
                        == chunks@[t].start_line as int && rec.end_line as int
                        == chunks@[t].end_line as int && rec.is_anchor
                        == chunks@[t].is_anchor && rec.chunk_type == chunks@[t].chunk_type
                        && rec.id@ == path@ + seq![58u8] + spec_dec_digits(t as nat)
                },
        decreases n - i,
    {
        let emb = rest.remove(0);
        proof {
            assert(rest@ =~= all_embeds.subrange(i + 1, n as int));
            assert(emb == all_embeds[i as int]);
        }
        let chunk = &chunks[i];
        let mut id = sub_vec(path, 0, path.len());
        id.push(58);
        assert(i <= 0xffff_ffff);
        let digits = dec_digits(i as u32);
        proof {
            assert((i as u32) as nat == i as nat);
            assert(digits@ == spec_dec_digits(i as nat));
        }
        crate::bytes::push_all(&mut id, digits.as_slice());
        proof {
            assert(id@ =~= path@ + seq![58u8] + spec_dec_digits(i as nat));
        }
        let context_prev: Vec<u8> = if chunk.context.len() > 0 {
            sub_vec(chunk.context[0].as_slice(), 0, chunk.context[0].len())
        } else {
            Vec::new()
        };
        let context_next: Vec<u8> = if chunk.context.len() > 0 {
            sub_vec(
                chunk.context[chunk.context.len() - 1].as_slice(),
                0,
                chunk.context[chunk.context.len() - 1].len(),
            )
        } else {
            Vec::new()
        };
        let rec = VectorRecord {
            id,
            path: sub_vec(path, 0, path.len()),
            hash: sub_vec(hash, 0, hash.len()),
            content: sub_vec(chunk.content.as_slice(), 0, chunk.content.len()),
            start_line: chunk.start_line as u32,
            end_line: chunk.end_line as u32,
            chunk_index: i as u32,
            is_anchor: chunk.is_anchor,
            chunk_type: chunk.chunk_type,
            context_prev,
            context_next,
            dense: emb.dense,
            colbert: emb.colbert,
            colbert_scale_bits: emb.colbert_scale_bits,
        };
        out.push(rec);
        i += 1;
    }
    out
}

/// Incremental no-op law: once a file is written at its content hash, the
/// hash gate reports it unchanged — a second pass over an unchanged tree
/// issues no store writes.
pub proof fn lemma_unchanged_file_skipped(m: Map<Seq<u8>, Seq<u8>>, path: Seq<u8>, content: Seq<
    u8,
>)
    ensures
        !spec_needs_index(
            m.insert(path, spec_content_hash(content)),
            path,
            spec_content_hash(content),
        ),
{
}

/// Manifest/store coherence law: in a well-formed index, every record's
/// path is in the manifest at the record's own hash; after a delete, the
/// path has neither records nor a manifest entry.
pub proof fn lemma_manifest_store_coherence(idx: Index, i: int)
    requires
        idx.wf(),
        0 <= i < idx.store.view().len(),
    ensures
        idx.manifest.view().contains_key(idx.store.view()[i].path@),
        idx.manifest.view()[idx.store.view()[i].path@] == idx.store.view()[i].hash@,
{
}

} // verus!
