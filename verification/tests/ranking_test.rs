//! The search post-ranker: boosts, sort order, the per-file cap and the
//! final truncation.

use smgrep::chunker::ChunkType;
use smgrep::ranking::{
    apply_per_file_limit, apply_structural_boost, filter_by_path, recall_limit, sort_hits,
    SearchEngine, SearchResult, ANCHOR_BONUS,
};

fn hit(path: &[u8], score: i64, start_line: u32, ty: ChunkType, anchor: bool) -> SearchResult {
    SearchResult {
        path: path.to_vec(),
        content: b"snippet".to_vec(),
        score,
        start_line,
        num_lines: 1,
        chunk_type: ty,
        is_anchor: anchor,
    }
}

#[test]
fn boost_adds_type_bonus_and_anchor_bonus() {
    let hits = vec![
        hit(b"a.rs", 1000, 0, ChunkType::Class, true),
        hit(b"a.rs", 1000, 1, ChunkType::Other, false),
    ];
    let boosted = apply_structural_boost(hits);
    assert_eq!(boosted[0].score, 1000 + 30000 + ANCHOR_BONUS);
    assert_eq!(boosted[1].score, 1000 + 16000);
}

#[test]
fn sort_orders_by_score_then_path_then_line() {
    let hits = vec![
        hit(b"b.rs", 10, 5, ChunkType::Block, false),
        hit(b"a.rs", 20, 9, ChunkType::Block, false),
        hit(b"a.rs", 10, 1, ChunkType::Block, false),
    ];
    let sorted = sort_hits(hits);
    assert_eq!(sorted[0].score, 20);
    assert_eq!(sorted[1].path, b"a.rs".to_vec());
    assert_eq!(sorted[1].start_line, 1);
    assert_eq!(sorted[2].path, b"b.rs".to_vec());
}

#[test]
fn per_file_cap_keeps_first_k_per_path() {
    // No path may appear more than k times in the capped list.
    let hits = vec![
        hit(b"a.rs", 50, 0, ChunkType::Block, false),
        hit(b"a.rs", 40, 1, ChunkType::Block, false),
        hit(b"b.rs", 30, 0, ChunkType::Block, false),
        hit(b"a.rs", 20, 2, ChunkType::Block, false),
    ];
    let capped = apply_per_file_limit(hits, 1);
    assert_eq!(capped.len(), 2);
    assert_eq!(capped[0].path, b"a.rs".to_vec());
    assert_eq!(capped[0].start_line, 0);
    assert_eq!(capped[1].path, b"b.rs".to_vec());
}

#[test]
fn per_file_cap_of_two() {
    let hits = vec![
        hit(b"a.rs", 50, 0, ChunkType::Block, false),
        hit(b"a.rs", 40, 1, ChunkType::Block, false),
        hit(b"a.rs", 30, 2, ChunkType::Block, false),
    ];
    let capped = apply_per_file_limit(hits, 2);
    assert_eq!(capped.len(), 2);
    let a_count = capped.iter().filter(|h| h.path == b"a.rs".to_vec()).count();
    assert!(a_count <= 2);
}

#[test]
fn search_caps_sorts_and_truncates() {
    let engine = SearchEngine::new();
    let candidates = vec![
        hit(b"x.rs", 100, 0, ChunkType::Other, false),
        hit(b"x.rs", 90, 4, ChunkType::Other, false),
        hit(b"y.rs", 95, 2, ChunkType::Other, false),
        hit(b"z.rs", 80, 7, ChunkType::Other, false),
    ];
    let out = engine.search(candidates, 2, 1);
    assert_eq!(out.len(), 2);
    assert!(out[0].score >= out[1].score);
    assert_ne!(out[0].path, out[1].path);
}

#[test]
fn filter_keeps_prefix_matches() {
    let hits = vec![
        hit(b"src/a.rs", 1, 0, ChunkType::Block, false),
        hit(b"lib/b.rs", 2, 0, ChunkType::Block, false),
        hit(b"src/c.rs", 3, 0, ChunkType::Block, false),
    ];
    let kept = filter_by_path(hits, b"src/");
    assert_eq!(kept.len(), 2);
    assert_eq!(kept[0].path, b"src/a.rs".to_vec());
    assert_eq!(kept[1].path, b"src/c.rs".to_vec());
}

#[test]
fn recall_widens_with_a_floor() {
    assert_eq!(recall_limit(10, false), 100);
    assert_eq!(recall_limit(80, false), 160);
    assert_eq!(recall_limit(10, true), 100);
    assert_eq!(recall_limit(80, true), 320);
}
