//! The daemon's decisions: dispatch, the idle rule, progress, watcher
//! coalescing and path relativisation — plus the supporting helpers.

use smgrep::config::Config;
use smgrep::daemon::{
    build_search_response, coalesce_events, dispatch_request, idle_exceeded, progress_pct,
    relativize_path, Dispatch, WatchAction, WatchEvent,
};
use smgrep::embed::batch_spans;
use smgrep::format::format_size;
use smgrep::grammar::{extension_to_language, grammar_file_name, language_for_path, LangId};
use smgrep::ipc::{Request, Response, SearchStatus, ServerStatus};

fn status() -> ServerStatus {
    ServerStatus { indexing: false, progress: 100, files: 3 }
}

#[test]
fn hello_is_answered_with_own_build_id() {
    let d = dispatch_request(
        Request::Hello { build_id: b"their-id".to_vec() },
        b"our-id",
        status(),
    );
    match d {
        Dispatch::Reply(Response::Hello { build_id }) => {
            assert_eq!(build_id, b"our-id".to_vec())
        },
        _ => panic!("wrong dispatch"),
    }
}

#[test]
fn empty_query_is_refused() {
    let d = dispatch_request(
        Request::Search { query: Vec::new(), limit: 5, path: None, rerank: true },
        b"id",
        status(),
    );
    match d {
        Dispatch::Reply(Response::Error { message }) => {
            assert_eq!(message, b"query is required".to_vec())
        },
        _ => panic!("wrong dispatch"),
    }
}

#[test]
fn search_and_shutdown_dispatch() {
    let d = dispatch_request(
        Request::Search { query: b"q".to_vec(), limit: 5, path: None, rerank: false },
        b"id",
        status(),
    );
    assert!(matches!(d, Dispatch::Search { .. }));
    let d2 = dispatch_request(Request::Shutdown, b"id", status());
    assert!(matches!(d2, Dispatch::Shutdown(Response::Shutdown { success: true })));
}

#[test]
fn idle_rule_fires_just_past_the_timeout() {
    // With timeout T, T seconds of quiet is not enough, T+1 is.
    assert!(!idle_exceeded(1800, 0, 1800));
    assert!(idle_exceeded(1801, 0, 1800));
    assert!(!idle_exceeded(5, 10, 1800));
}

#[test]
fn progress_is_floored_percent() {
    assert_eq!(progress_pct(1, 3), 33);
    assert_eq!(progress_pct(2, 3), 66);
    assert_eq!(progress_pct(3, 3), 100);
    assert_eq!(progress_pct(0, 7), 0);
}

#[test]
fn coalesce_keeps_latest_action_per_path() {
    let events = vec![
        WatchEvent { path: b"a.rs".to_vec(), action: WatchAction::Upsert },
        WatchEvent { path: b"b.rs".to_vec(), action: WatchAction::Upsert },
        WatchEvent { path: b"a.rs".to_vec(), action: WatchAction::Delete },
    ];
    let out = coalesce_events(events);
    assert_eq!(out.len(), 2);
    let a = out.iter().find(|e| e.path == b"a.rs".to_vec()).unwrap();
    assert_eq!(a.action, WatchAction::Delete);
    let b = out.iter().find(|e| e.path == b"b.rs".to_vec()).unwrap();
    assert_eq!(b.action, WatchAction::Upsert);
}

#[test]
fn paths_are_made_repo_relative() {
    assert_eq!(relativize_path(b"/repo/src/a.rs", b"/repo"), b"src/a.rs".to_vec());
    assert_eq!(relativize_path(b"/elsewhere/a.rs", b"/repo"), b"/elsewhere/a.rs".to_vec());
}

#[test]
fn search_response_reports_indexing() {
    let r = build_search_response(Vec::new(), true, 40);
    assert_eq!(r.status, SearchStatus::Indexing);
    assert_eq!(r.progress, Some(40));
    let r2 = build_search_response(Vec::new(), false, 0);
    assert_eq!(r2.status, SearchStatus::Ready);
    assert_eq!(r2.progress, None);
}

#[test]
fn batch_plan_covers_in_order() {
    let spans = batch_spans(100, 48);
    assert_eq!(spans, vec![(0, 48), (48, 96), (96, 100)]);
    assert_eq!(batch_spans(0, 48).len(), 0);
    assert_eq!(batch_spans(10, 48), vec![(0, 10)]);
}

#[test]
fn config_sizes() {
    let cfg = Config::default();
    assert_eq!(cfg.batch_size(), 48);
    assert_eq!(cfg.default_batch_size, 48);
    assert_eq!(cfg.max_batch_size, 96);
    assert_eq!(cfg.pool_size(16), 12);
    assert_eq!(cfg.pool_size(2), 1);
    assert_eq!(cfg.pool_size(200), 32);
    let t = cfg.default_threads();
    assert!(1 <= t && t <= cfg.max_threads);
}

#[test]
fn sizes_format_with_one_decimal() {
    assert_eq!(String::from_utf8(format_size(1023)).unwrap(), "1023 B");
    assert_eq!(String::from_utf8(format_size(1536)).unwrap(), "1.5 KB");
    assert_eq!(String::from_utf8(format_size(2 * 1024 * 1024)).unwrap(), "2.0 MB");
    assert_eq!(
        String::from_utf8(format_size(3 * 1024 * 1024 * 1024 + 400 * 1024 * 1024)).unwrap(),
        "3.3 GB"
    );
}

#[test]
fn extensions_map_to_languages() {
    assert_eq!(extension_to_language(b"ts"), Some(LangId::Typescript));
    assert_eq!(extension_to_language(b"TS"), Some(LangId::Typescript));
    assert_eq!(extension_to_language(b"py"), Some(LangId::Python));
    assert_eq!(extension_to_language(b"nope"), None);
    assert_eq!(language_for_path(b"a/b/test.rs"), Some(LangId::RustLang));
    assert_eq!(language_for_path(b"a/.gitignore"), None);
    assert_eq!(language_for_path(b"noext"), None);
    assert_eq!(
        String::from_utf8(grammar_file_name(LangId::Typescript)).unwrap(),
        "tree-sitter-typescript.wasm"
    );
}
