//! The daemon's decision logic, free of I/O: request dispatch, the idle
//! shutdown rule, indexing progress, watcher event coalescing, and response
//! assembly. The shell runs the socket loop and the timers; every decision
//! it takes comes from a function here.

use vstd::prelude::*;
use crate::bytes::{bytes_eq, sub_vec, starts_with, spec_starts_with};
use crate::ipc::{Request, Response, ServerStatus, SearchStatus, SearchResponse};
use crate::ranking::SearchResult;

verus! {

/// What the socket loop does with one request.
pub enum Dispatch {
    /// Send this response and keep serving.
    Reply(Response),
    /// Run a search with these parameters, then send its response.
    Search { query: Vec<u8>, limit: u32, path: Option<Vec<u8>>, rerank: bool },
    /// Send this response, then begin draining.
    Shutdown(Response),
}

/// `query is required`, the error for an empty search query.
pub open spec fn spec_query_required() -> Seq<u8> {
    seq![
        113u8, 117u8, 101u8, 114u8, 121u8, 32u8, 105u8, 115u8, 32u8, 114u8, 101u8, 113u8,
        117u8, 105u8, 114u8, 101u8, 100u8,
    ]
}

fn query_required_message() -> (r: Vec<u8>)
    ensures
        r@ == spec_query_required(),
{
    let mut v: Vec<u8> = Vec::new();
    v.push(113);
    v.push(117);
    v.push(101);
    v.push(114);
    v.push(121);
    v.push(32);
    v.push(105);
    v.push(115);
    v.push(32);
    v.push(114);
    v.push(101);
    v.push(113);
    v.push(117);
    v.push(105);
    v.push(114);
    v.push(101);
    v.push(100);
    proof {
        assert(v@ =~= spec_query_required());
    }
    v
}

/// Decides what one inbound request leads to. A hello is answered with the
/// daemon's own build id — the daemon reports, the client judges. Health
/// reports the indexing snapshot. Shutdown is acknowledged and then honoured.
/// A search with an empty query is refused; any other search is handed to
/// the search pipeline unchanged.
pub fn dispatch_request(req: Request, build_id: &[u8], status: ServerStatus) -> (r: Dispatch)
    ensures
        match req {
            Request::Hello { .. } => r matches Dispatch::Reply(Response::Hello { build_id: b })
                && b@ == build_id@,
            Request::Health => r matches Dispatch::Reply(Response::Health { status: s }) && s
                == status,
            Request::Shutdown => r matches Dispatch::Shutdown(Response::Shutdown {
                success: s,
            }) && s == true,
            Request::Search { query, limit, path, rerank } => {
                if query@.len() == 0 {
                    r matches Dispatch::Reply(Response::Error { message: m }) && m@
                        == spec_query_required()
                } else {
                    r matches Dispatch::Search { query: q, limit: l, path: p, rerank: rr }
                        && q@ == query@ && l == limit && rr == rerank && match (p, path) {
                        (Some(a), Some(b)) => a@ == b@,
                        (None, None) => true,
                        _ => false,
                    }
                }
            },
        },
{
    match req {
        Request::Hello { .. } => Dispatch::Reply(
            Response::Hello { build_id: sub_vec(build_id, 0, build_id.len()) },
        ),
        Request::Health => Dispatch::Reply(Response::Health { status }),
        Request::Shutdown => Dispatch::Shutdown(Response::Shutdown { success: true }),
        Request::Search { query, limit, path, rerank } => {
            if query.len() == 0 {
                Dispatch::Reply(Response::Error { message: query_required_message() })
            } else {
                Dispatch::Search { query, limit, path, rerank }
            }
        },
    }
}

/// The idle rule: the daemon leaves once the time since the last request
/// exceeds the idle timeout.
pub open spec fn spec_idle_exceeded(now: int, last_activity: int, idle_timeout: int) -> bool {
    now >= last_activity && now - last_activity > idle_timeout
}

/// Decides the idle check that runs every check interval: true exactly when
/// the idle timeout has been exceeded, after which the shell drains and
/// removes the socket.
pub fn idle_exceeded(now_secs: u64, last_activity_secs: u64, idle_timeout_secs: u64) -> (r:
    bool)
    ensures
        r == spec_idle_exceeded(
            now_secs as int,
            last_activity_secs as int,
            idle_timeout_secs as int,
        ),
{
    now_secs >= last_activity_secs && now_secs - last_activity_secs > idle_timeout_secs
}

/// Idle exit law: at any instant more than the timeout past the last
/// request, the idle check fires — the daemon drains and its socket goes
/// away.
pub proof fn lemma_idle_exit(now: int, last_activity: int, idle_timeout: int)
    requires
        now >= last_activity,
        now - last_activity > idle_timeout,
    ensures
        spec_idle_exceeded(now, last_activity, idle_timeout),
{
}

/// Initial-sync progress after `done` of `total` files: `floor(done/total ×
/// 100)`, capped at 100.
pub fn progress_pct(done: usize, total: usize) -> (r: u8)
    requires
        total >= 1,
        done <= total,
        total <= 0xffff_ffff,
    ensures
        r as int == (done as int) * 100 / (total as int),
        r <= 100,
        done == total ==> r == 100,
{
    let t64: u64 = total as u64;
    let d64: u64 = done as u64;
    let pct: u64 = d64 * 100 / t64;
    proof {
        assert((d64 as int) * 100 / (t64 as int) <= 100 && ((d64 == t64) ==> (d64 as int)
            * 100 / (t64 as int) == 100)) by (nonlinear_arith)
            requires
                d64 <= t64 && t64 >= 1,
        ;
    }
    pct as u8
}

/// A filesystem event the watcher hands the daemon.
#[derive(Clone, Copy, Debug, PartialEq, Eq, Structural)]
pub enum WatchAction {
    Upsert,
    Delete,
}

pub struct WatchEvent {
    pub path: Vec<u8>,
    pub action: WatchAction,
}

/// The last action a batch holds for a path, if any.
pub open spec fn last_action(s: Seq<WatchEvent>, p: Seq<u8>) -> Option<WatchAction>
    decreases s.len(),
{
    if s.len() == 0 {
        None
    } else if s.last().path@ == p {
        Some(s.last().action)
    } else {
        last_action(s.drop_last(), p)
    }
}

/// Coalesces one watcher batch: several events for one path collapse to the
/// latest action, each path appears once, and no path appears that the
/// batch did not hold.
#[verifier::rlimit(100)]
pub fn coalesce_events(events: Vec<WatchEvent>) -> (r: Vec<WatchEvent>)
    ensures
        forall|i: int, j: int|
            0 <= i < j < r@.len() ==> (#[trigger] r@[i]).path@ != (#[trigger] r@[j]).path@,
        forall|i: int|
            0 <= i < r@.len() ==> last_action(events@, (#[trigger] r@[i]).path@) == Some(
                r@[i].action,
            ),
        forall|p: Seq<u8>|
            #[trigger] last_action(events@, p) is Some ==> exists|i: int|
                0 <= i < r@.len() && (#[trigger] r@[i]).path@ == p,
{
    let mut out: Vec<WatchEvent> = Vec::new();
    let mut rest = events;
    let ghost orig = rest@;
    let n = rest.len();
    let mut i: usize = 0;
    while i < n
        invariant
            n == orig.len(),
            0 <= i <= n,
            rest@ == orig.subrange(i as int, n as int),
            forall|a: int, b: int|
                0 <= a < b < out@.len() ==> (#[trigger] out@[a]).path@ != (
                #[trigger] out@[b]).path@,
            forall|a: int|
                0 <= a < out@.len() ==> last_action(orig.take(i as int), (
                #[trigger] out@[a]).path@) == Some(out@[a].action),
            forall|p: Seq<u8>|
                #[trigger] last_action(orig.take(i as int), p) is Some ==> exists|a: int|
                    0 <= a < out@.len() && (#[trigger] out@[a]).path@ == p,
        decreases n - i,
    {
        let ev = rest.remove(0);
        proof {
            assert(rest@ =~= orig.subrange(i + 1, n as int));
            assert(ev == orig[i as int]);
            assert(orig.take(i + 1).drop_last() =~= orig.take(i as int));
            assert(orig.take(i + 1).last() == orig[i as int]);
        }
        let mut found: Option<usize> = None;
        let mut t: usize = 0;
        while t < out.len()
            invariant
                0 <= t <= out@.len(),
                ev == orig[i as int],
                match found {
                    Some(f) => f < out@.len() && out@[f as int].path@ == ev.path@,
                    None => forall|a: int|
                        0 <= a < t ==> (#[trigger] out@[a]).path@ != ev.path@,
                },
            decreases out@.len() - t,
        {
            if found.is_none() && bytes_eq(out[t].path.as_slice(), ev.path.as_slice()) {
                found = Some(t);
            }
            t += 1;
        }
        let ghost prev = out@;
        match found {
            Some(f) => {
                let replaced = WatchEvent { path: sub_vec(ev.path.as_slice(), 0, ev.path.len()), action: ev.action };
                out.set(f, replaced);
                proof {
                    assert(out@[f as int].path@ == ev.path@);
                    assert forall|a: int|
                        0 <= a < out@.len() implies last_action(orig.take(i + 1), (
                    #[trigger] out@[a]).path@) == Some(out@[a].action) by {
                        if a != f {
                            assert(out@[a] == prev[a]);
                            assert(prev[a].path@ != prev[f as int].path@);
                        }
                    }
                    assert forall|p: Seq<u8>| #[trigger] last_action(orig.take(i + 1), p)
                        is Some implies exists|a: int|
                        0 <= a < out@.len() && (#[trigger] out@[a]).path@ == p by {
                        if p == ev.path@ {
                            assert(out@[f as int].path@ == p);
                        } else {
                            assert(last_action(orig.take(i as int), p) is Some);
                            let a0 = choose|a0: int|
                                0 <= a0 < prev.len() && (#[trigger] prev[a0]).path@ == p;
                            assert(a0 != f as int);
                            assert(out@[a0] == prev[a0]);
                            assert(out@[a0].path@ == p);
                        }
                    }
                }
            },
            None => {
                out.push(ev);
                proof {
                    assert forall|a: int|
                        0 <= a < out@.len() implies last_action(orig.take(i + 1), (
                    #[trigger] out@[a]).path@) == Some(out@[a].action) by {
                        if a < prev.len() {
                            assert(out@[a] == prev[a]);
                            assert(prev[a].path@ != orig[i as int].path@);
                        } else {
                            assert(out@[a] == orig[i as int]);
                        }
                    }
                    assert forall|p: Seq<u8>| #[trigger] last_action(orig.take(i + 1), p)
                        is Some implies exists|a: int|
                        0 <= a < out@.len() && (#[trigger] out@[a]).path@ == p by {
                        if p == orig[i as int].path@ {
                            assert(out@[prev.len() as int].path@ == p);
                        } else {
                            assert(last_action(orig.take(i as int), p) is Some);
                            let a0 = choose|a0: int|
                                0 <= a0 < prev.len() && (#[trigger] prev[a0]).path@ == p;
                            assert(out@[a0] == prev[a0]);
                            assert(out@[a0].path@ == p);
                        }
                    }
                }
            },
        }
        i += 1;
    }
    proof {
        assert(orig.take(n as int) =~= orig);
    }
    out
}

/// Leading path-separator bytes dropped.
pub open spec fn drop_slashes(s: Seq<u8>) -> Seq<u8>
    decreases s.len(),
{
    if s.len() > 0 && s[0] == 47 {
        drop_slashes(s.skip(1))
    } else {
        s
    }
}

/// A result path made repo-relative: the root prefix stripped, then any
/// leading separator; a path outside the root is returned unchanged.
pub open spec fn spec_relativize(path: Seq<u8>, root: Seq<u8>) -> Seq<u8> {
    if spec_starts_with(path, root) {
        drop_slashes(path.skip(root.len() as int))
    } else {
        path
    }
}

pub fn relativize_path(path: &[u8], root: &[u8]) -> (r: Vec<u8>)
    ensures
        r@ == spec_relativize(path@, root@),
{
    if starts_with(path, root) {
        let mut from: usize = root.len();
        proof {
            assert(path@.skip(root@.len() as int) =~= path@.subrange(
                root@.len() as int,
                path@.len() as int,
            ));
        }
        while from < path.len() && path[from] == 47
            invariant
                root@.len() <= from <= path@.len(),
                drop_slashes(path@.skip(root@.len() as int)) == drop_slashes(
                    path@.skip(from as int),
                ),
            decreases path@.len() - from,
        {
            proof {
                assert(path@.skip(from as int).skip(1) =~= path@.skip(from + 1));
            }
            from += 1;
        }
        proof {
            assert(drop_slashes(path@.skip(from as int)) == path@.skip(from as int));
        }
        let r = sub_vec(path, from, path.len());
        proof {
            assert(r@ =~= path@.skip(from as int));
        }
        r
    } else {
        sub_vec(path, 0, path.len())
    }
}

/// Assembles a search response: the ranked results, plus the indexing
/// status — `Indexing` with the current progress while the initial sync
/// runs, `Ready` with no progress once it is done.
pub fn build_search_response(results: Vec<SearchResult>, indexing: bool, progress: u8) -> (r:
    SearchResponse)
    ensures
        r.results@ == results@,
        r.status == if indexing {
            SearchStatus::Indexing
        } else {
            SearchStatus::Ready
        },
        r.progress == if indexing {
            Some(progress)
        } else {
            None::<u8>
        },
{
    SearchResponse {
        results,
        status: if indexing {
            SearchStatus::Indexing
        } else {
            SearchStatus::Ready
        },
        progress: if indexing {
            Some(progress)
        } else {
            None
        },
    }
}

} // verus!
