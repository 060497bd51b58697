//! The store, the manifest and their coherence: atomic per-file
//! replacement, the hash gate, and content hashing.

use smgrep::chunker::ChunkType;
use smgrep::hash::compute_hash;
use smgrep::index::{build_records, Index};
use smgrep::manifest::Manifest;
use smgrep::store::VectorRecord;

fn record(path: &[u8], hash: &[u8], i: u32, dense_len: usize) -> VectorRecord {
    VectorRecord {
        id: {
            let mut v = path.to_vec();
            v.push(b':');
            v.extend_from_slice(i.to_string().as_bytes());
            v
        },
        path: path.to_vec(),
        hash: hash.to_vec(),
        content: b"body".to_vec(),
        start_line: 0,
        end_line: 1,
        chunk_index: i,
        is_anchor: false,
        chunk_type: ChunkType::Block,
        context_prev: Vec::new(),
        context_next: Vec::new(),
        dense: vec![0u8; dense_len],
        colbert: Vec::new(),
        colbert_scale_bits: 0,
    }
}

#[test]
fn empty_content_hash_is_known() {
    let h = compute_hash(b"");
    assert_eq!(
        String::from_utf8(h).unwrap(),
        "e3b0c44298fc1c149afbf4c8996fb92427ae41e4649b934ca495991b7852b855"
    );
}

#[test]
fn abc_content_hash_is_known() {
    let h = compute_hash(b"abc");
    assert_eq!(
        String::from_utf8(h).unwrap(),
        "ba7816bf8f01cfea414140de5dae2223b00361a396177a9cb410ff61f20015ad"
    );
}

#[test]
fn manifest_set_get_remove() {
    let mut m = Manifest::new();
    assert!(m.get_hash(b"a.rs").is_none());
    m.set_hash(b"a.rs".to_vec(), b"h1".to_vec());
    assert_eq!(m.get_hash(b"a.rs").unwrap(), b"h1".to_vec());
    m.set_hash(b"a.rs".to_vec(), b"h2".to_vec());
    assert_eq!(m.get_hash(b"a.rs").unwrap(), b"h2".to_vec());
    assert_eq!(m.len(), 1);
    m.remove(b"a.rs");
    assert!(m.get_hash(b"a.rs").is_none());
    assert_eq!(m.len(), 0);
}

#[test]
fn three_records() {
    // Manifest/store coherence: after a write at hash h1 the manifest and
    // every record agree; after a rewrite at h2 the old records are gone;
    // after a delete neither store nor manifest knows the path.
    let mut idx = Index::new(4);
    let h1 = b"1111";
    let batch: Vec<VectorRecord> = (0..3).map(|i| record(b"f.rs", h1, i, 4)).collect();
    idx.upsert_file(batch);
    assert_eq!(idx.store.count_for_path(b"f.rs"), 3);
    assert_eq!(idx.manifest.get_hash(b"f.rs").unwrap(), h1.to_vec());
    for i in 0..idx.store.len() {
        let r = idx.store.get(i);
        if r.path == b"f.rs".to_vec() {
            assert_eq!(r.hash, h1.to_vec());
        }
    }

    let h2 = b"2222";
    let batch2: Vec<VectorRecord> = (0..2).map(|i| record(b"f.rs", h2, i, 4)).collect();
    idx.upsert_file(batch2);
    assert_eq!(idx.store.count_for_path(b"f.rs"), 2);
    assert_eq!(idx.manifest.get_hash(b"f.rs").unwrap(), h2.to_vec());
    for i in 0..idx.store.len() {
        let r = idx.store.get(i);
        if r.path == b"f.rs".to_vec() {
            assert_eq!(r.hash, h2.to_vec());
        }
    }

    idx.delete_file(b"f.rs");
    assert_eq!(idx.store.count_for_path(b"f.rs"), 0);
    assert!(idx.manifest.get_hash(b"f.rs").is_none());
}

#[test]
fn unchanged_file_is_skipped() {
    // The hash gate: a second pass over an unchanged file asks for no
    // store write, a changed file does.
    let mut idx = Index::new(4);
    let content = b"fn main() {}\n";
    let hash = compute_hash(content);
    let mut writes = 0;
    for _ in 0..2 {
        if idx.needs_index(b"m.rs", &hash) {
            let batch = vec![record(b"m.rs", &hash, 0, 4)];
            idx.upsert_file(batch);
            writes += 1;
        }
    }
    assert_eq!(writes, 1);
    let changed = compute_hash(b"fn main() { other(); }\n");
    assert!(idx.needs_index(b"m.rs", &changed));
}

#[test]
fn records_replace_only_their_path() {
    let mut idx = Index::new(4);
    idx.upsert_file(vec![record(b"a.rs", b"ha", 0, 4)]);
    idx.upsert_file(vec![record(b"b.rs", b"hb", 0, 4), record(b"b.rs", b"hb", 1, 4)]);
    idx.upsert_file(vec![record(b"a.rs", b"ha2", 0, 4)]);
    assert_eq!(idx.store.count_for_path(b"a.rs"), 1);
    assert_eq!(idx.store.count_for_path(b"b.rs"), 2);
    assert_eq!(idx.manifest.get_hash(b"b.rs").unwrap(), b"hb".to_vec());
}

#[test]
fn build_records_assembles_ids_and_order() {
    let chunker = smgrep::syntax::Chunker::new();
    let chunks = chunker.chunk(b"one\ntwo\n", b"x.txt", None);
    let n = chunks.len();
    let embeds: Vec<smgrep::embed::HybridEmbedding> = (0..n)
        .map(|_| smgrep::embed::HybridEmbedding {
            dense: vec![7u8; 4],
            colbert: vec![1, 2],
            colbert_scale_bits: 0,
        })
        .collect();
    let records = build_records(b"x.txt", b"hx", &chunks, embeds, 4);
    assert_eq!(records.len(), n);
    assert_eq!(records[0].id, b"x.txt:0".to_vec());
    assert_eq!(records[0].path, b"x.txt".to_vec());
    assert_eq!(records[0].hash, b"hx".to_vec());
    assert_eq!(records[0].chunk_index, 0);
}

#[test]
fn manifest_renders_its_blob() {
    let mut m = Manifest::new();
    assert_eq!(String::from_utf8(m.render()).unwrap(), "{\"files\":{}}");
    m.set_hash(b"src/a.rs".to_vec(), b"aa11".to_vec());
    m.set_hash(b"we\"ird\\name".to_vec(), b"bb22".to_vec());
    let blob = String::from_utf8(m.render()).unwrap();
    assert_eq!(
        blob,
        "{\"files\":{\"src/a.rs\":\"aa11\",\"we\\\"ird\\\\name\":\"bb22\"}}"
    );
}

#[test]
fn manifest_blob_round_trips() {
    let mut m = Manifest::new();
    m.set_hash(b"src/a.rs".to_vec(), b"aa11".to_vec());
    m.set_hash(b"src/b.rs".to_vec(), b"bb22".to_vec());
    let blob = m.render();
    let loaded = Manifest::parse(&blob).expect("blob loads");
    assert_eq!(loaded.get_hash(b"src/a.rs").unwrap(), b"aa11".to_vec());
    assert_eq!(loaded.get_hash(b"src/b.rs").unwrap(), b"bb22".to_vec());
    assert_eq!(loaded.len(), 2);
    assert_eq!(loaded.render(), blob);

    let empty = Manifest::new();
    let eblob = empty.render();
    let eloaded = Manifest::parse(&eblob).expect("empty blob loads");
    assert_eq!(eloaded.len(), 0);

    assert!(Manifest::parse(b"{}").is_none());
    assert!(Manifest::parse(b"{\"files\":{\"a\":\"1\",\"a\":\"2\"}}").is_none());
}
