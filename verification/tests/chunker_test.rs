//! Chunker behaviour: the sliding-window fallback, its bounds and ordering,
//! idempotence, the secondary splitter, and the anchor chunk.

use smgrep::chunker::{split_if_too_big, Chunk, ChunkType, MAX_CHARS, MAX_LINES};
use smgrep::syntax::Chunker;
use smgrep::anchor::create_anchor_chunk;

#[test]
fn test_fallback_chunker() {
    let chunker = Chunker::new();
    let content = b"line 1\nline 2\nline 3\n";
    let path = b"test.txt";

    let chunks = chunker.chunk(content, path, None);
    assert!(!chunks.is_empty());
    assert_eq!(chunks[0].chunk_type, ChunkType::Block);
}

#[test]
fn test_create_anchor_chunk() {
    let content = b"\n// This is a comment\nimport { foo } from 'bar';\nexport const baz = 42;\n\nfunction test() {\n  return true;\n}\n";
    let path = b"test.ts";
    let chunk = create_anchor_chunk(content, path);

    assert!(chunk.is_anchor);
    assert_eq!(chunk.chunk_type, ChunkType::Block);
    let text = String::from_utf8(chunk.content.clone()).unwrap();
    assert!(text.contains("Imports:"));
    assert!(text.contains("Exports:"));
    assert!(text.starts_with("File: test.ts"));
    assert!(text.contains("foo"));
    assert!(text.contains("baz"));
}

#[test]
fn fallback_single_window_keeps_content() {
    let chunker = Chunker::new();
    let content = b"alpha\nbeta\ngamma";
    let chunks = chunker.chunk(content, b"a.txt", None);
    assert_eq!(chunks.len(), 1);
    assert_eq!(chunks[0].content, b"alpha\nbeta\ngamma".to_vec());
    assert_eq!(chunks[0].start_line, 0);
    assert_eq!(chunks[0].end_line, 3);
    assert_eq!(chunks[0].context.len(), 1);
    assert_eq!(chunks[0].context[0], b"File: a.txt".to_vec());
}

#[test]
fn fallback_chunks_obey_bounds() {
    // A long generated file: every chunk stays within the line and byte
    // limits.
    let mut content = Vec::new();
    for i in 0..500 {
        content.extend_from_slice(format!("let value_{} = {};\n", i, i).as_bytes());
    }
    let chunker = Chunker::new();
    let chunks = chunker.chunk(&content, b"gen.txt", None);
    assert!(!chunks.is_empty());
    for c in &chunks {
        assert!(c.content.len() <= MAX_CHARS);
        assert!(c.content.split(|b| *b == b'\n').count() <= MAX_LINES);
    }
}

#[test]
fn fallback_windows_are_ordered() {
    let mut content = Vec::new();
    for i in 0..300 {
        content.extend_from_slice(format!("row {}\n", i).as_bytes());
    }
    let chunker = Chunker::new();
    let chunks = chunker.chunk(&content, b"rows.txt", None);
    for w in chunks.windows(2) {
        let a = (&w[0].start_line, &w[0].end_line);
        let b = (&w[1].start_line, &w[1].end_line);
        assert!(a <= b);
    }
}

#[test]
fn fallback_chunking_is_idempotent() {
    let mut content = Vec::new();
    for i in 0..200 {
        content.extend_from_slice(format!("fn thing_{}() {{}}\n", i).as_bytes());
    }
    let chunker = Chunker::new();
    let first = chunker.chunk(&content, b"twice.rs", None);
    let second = chunker.chunk(&content, b"twice.rs", None);
    assert_eq!(first.len(), second.len());
    for (a, b) in first.iter().zip(second.iter()) {
        assert_eq!(a.content, b.content);
        assert_eq!(a.start_line, b.start_line);
        assert_eq!(a.end_line, b.end_line);
        assert_eq!(a.chunk_type, b.chunk_type);
        assert_eq!(a.context, b.context);
    }
}

#[test]
fn fallback_window_count_matches_stride() {
    // 10000 one-word lines: ceil((10000 - overlap) / stride) windows.
    let mut content = Vec::new();
    for _ in 0..10000 {
        content.extend_from_slice(b"x\n");
    }
    let chunker = Chunker::new();
    let chunks = chunker.chunk(&content, b"big.txt", None);
    assert_eq!(chunks.len(), 154);
    for c in &chunks {
        assert!(c.content.len() <= MAX_CHARS);
        assert!(c.content.split(|b| *b == b'\n').count() <= MAX_LINES);
    }
}

#[test]
fn empty_file_yields_no_chunks() {
    let chunker = Chunker::new();
    let chunks = chunker.chunk(b"", b"empty.txt", None);
    assert_eq!(chunks.len(), 0);
}

#[test]
fn oversized_chunk_is_subdivided_with_header() {
    let mut content = Vec::new();
    content.extend_from_slice(b"fn big_function() {\n");
    for i in 0..120 {
        content.extend_from_slice(format!("    step_{}();\n", i).as_bytes());
    }
    content.extend_from_slice(b"}\n");
    let chunk = Chunk {
        content,
        start_line: 10,
        end_line: 132,
        chunk_type: ChunkType::Other,
        context: vec![b"File: big.rs".to_vec()],
        is_anchor: false,
    };
    let pieces = split_if_too_big(chunk);
    assert!(pieces.len() >= 2);
    for p in &pieces {
        assert!(p.content.len() <= MAX_CHARS);
        assert!(p.content.split(|b| *b == b'\n').count() <= MAX_LINES);
        assert_eq!(p.chunk_type, ChunkType::Other);
        assert_eq!(p.context, vec![b"File: big.rs".to_vec()]);
    }
    // Later windows open with the chunk's header line.
    let tail = String::from_utf8(pieces[1].content.clone()).unwrap();
    assert!(tail.starts_with("fn big_function() {\n"));
}

#[test]
fn within_bounds_chunk_passes_through() {
    let chunk = Chunk {
        content: b"short\nchunk\n".to_vec(),
        start_line: 4,
        end_line: 6,
        chunk_type: ChunkType::Block,
        context: vec![b"File: s.rs".to_vec()],
        is_anchor: false,
    };
    let pieces = split_if_too_big(chunk);
    assert_eq!(pieces.len(), 1);
    assert_eq!(pieces[0].content, b"short\nchunk\n".to_vec());
    assert_eq!(pieces[0].start_line, 4);
}
