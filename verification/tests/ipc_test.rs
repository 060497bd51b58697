//! The wire codec: every message round-trips through its encoding, and the
//! frame header announces the payload length.

use smgrep::chunker::ChunkType;
use smgrep::ipc::{
    decode_frame_len, decode_request, decode_response, encode_frame, encode_request,
    encode_response, Request, Response, SearchResponse, SearchStatus, ServerStatus,
};
use smgrep::error::SmgrepError;
use smgrep::ranking::SearchResult;

#[test]
fn hello_request_round_trips() {
    let req = Request::Hello { build_id: b"build-7".to_vec() };
    let enc = encode_request(&req);
    match decode_request(&enc) {
        Some(Request::Hello { build_id }) => assert_eq!(build_id, b"build-7".to_vec()),
        _ => panic!("wrong decode"),
    }
}

#[test]
fn search_request_round_trips() {
    let req = Request::Search {
        query: b"find the parser".to_vec(),
        limit: 10,
        path: Some(b"src".to_vec()),
        rerank: true,
    };
    let enc = encode_request(&req);
    match decode_request(&enc) {
        Some(Request::Search { query, limit, path, rerank }) => {
            assert_eq!(query, b"find the parser".to_vec());
            assert_eq!(limit, 10);
            assert_eq!(path, Some(b"src".to_vec()));
            assert!(rerank);
        },
        _ => panic!("wrong decode"),
    }
}

#[test]
fn health_and_shutdown_round_trip() {
    assert!(matches!(
        decode_request(&encode_request(&Request::Health)),
        Some(Request::Health)
    ));
    assert!(matches!(
        decode_request(&encode_request(&Request::Shutdown)),
        Some(Request::Shutdown)
    ));
}

#[test]
fn search_response_round_trips() {
    let results = vec![
        SearchResult {
            path: b"src/a.rs".to_vec(),
            content: b"fn a() {}".to_vec(),
            score: -12345,
            start_line: 3,
            num_lines: 1,
            chunk_type: ChunkType::Other,
            is_anchor: false,
        },
        SearchResult {
            path: b"src/b.rs".to_vec(),
            content: b"struct B;".to_vec(),
            score: 999999,
            start_line: 0,
            num_lines: 1,
            chunk_type: ChunkType::Class,
            is_anchor: true,
        },
    ];
    let resp = Response::Search {
        response: SearchResponse { results, status: SearchStatus::Indexing, progress: Some(42) },
    };
    let enc = encode_response(&resp);
    match decode_response(&enc) {
        Some(Response::Search { response }) => {
            assert_eq!(response.results.len(), 2);
            assert_eq!(response.results[0].path, b"src/a.rs".to_vec());
            assert_eq!(response.results[0].score, -12345);
            assert_eq!(response.results[1].chunk_type, ChunkType::Class);
            assert!(response.results[1].is_anchor);
            assert_eq!(response.status, SearchStatus::Indexing);
            assert_eq!(response.progress, Some(42));
        },
        _ => panic!("wrong decode"),
    }
}

#[test]
fn health_response_round_trips() {
    let resp = Response::Health {
        status: ServerStatus { indexing: true, progress: 55, files: 120 },
    };
    let enc = encode_response(&resp);
    match decode_response(&enc) {
        Some(Response::Health { status }) => {
            assert!(status.indexing);
            assert_eq!(status.progress, 55);
            assert_eq!(status.files, 120);
        },
        _ => panic!("wrong decode"),
    }
}

#[test]
fn error_and_shutdown_responses_round_trip() {
    let resp = Response::Error { message: b"store unavailable".to_vec() };
    match decode_response(&encode_response(&resp)) {
        Some(Response::Error { message }) => {
            assert_eq!(message, b"store unavailable".to_vec())
        },
        _ => panic!("wrong decode"),
    }
    match decode_response(&encode_response(&Response::Shutdown { success: true })) {
        Some(Response::Shutdown { success }) => assert!(success),
        _ => panic!("wrong decode"),
    }
}

#[test]
fn frame_carries_length_prefix() {
    let payload = b"abcde";
    let frame = encode_frame(payload);
    assert_eq!(frame.len(), 4 + 5);
    assert_eq!(decode_frame_len(&frame), Some(5));
    assert_eq!(&frame[4..], payload);
    assert_eq!(decode_frame_len(b"abc"), None);
}

#[test]
fn junk_does_not_decode() {
    assert!(decode_request(b"").is_none());
    assert!(decode_request(&[9, 9, 9]).is_none());
    assert!(decode_response(&[2, 255, 255, 255, 255]).is_none());
}

#[test]
fn error_kinds_render_fixed_messages() {
    assert_eq!(
        String::from_utf8(SmgrepError::StoreCorrupt.message()).unwrap(),
        "store corrupt"
    );
    assert_eq!(
        String::from_utf8(SmgrepError::VersionMismatch.message()).unwrap(),
        "version mismatch"
    );
    match SmgrepError::Timeout.to_response() {
        Response::Error { message } => assert_eq!(message, b"timeout".to_vec()),
        _ => panic!("wrong response"),
    }
}
