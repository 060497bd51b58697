//! The socket protocol: request and response messages and their binary
//! form. Every message crosses the wire as a `u32` little-endian length
//! followed by that many payload bytes; the payload is a tagged encoding of
//! the message, defined here as a spec function, produced and consumed by
//! verified code, and proved to round-trip.

use vstd::prelude::*;
use vstd::bytes::{
    spec_u32_to_le_bytes, spec_u32_from_le_bytes, u32_to_le_bytes, u32_from_le_bytes,
    lemma_auto_spec_u32_to_from_le_bytes, spec_u64_to_le_bytes, spec_u64_from_le_bytes,
    u64_to_le_bytes, u64_from_le_bytes, lemma_auto_spec_u64_to_from_le_bytes,
};
use crate::bytes::push_all;
use crate::chunker::ChunkType;
use crate::ranking::SearchResult;

verus! {

/// Whether indexing is still running when a search is answered.
#[derive(Clone, Copy, Debug, PartialEq, Eq, Structural)]
pub enum SearchStatus {
    Ready,
    Indexing,
}

/// The daemon's health snapshot.
#[derive(Clone, Copy, Debug, PartialEq, Eq, Structural)]
pub struct ServerStatus {
    pub indexing: bool,
    pub progress: u8,
    pub files: u32,
}

/// A search answer: ranked results plus the indexing status.
pub struct SearchResponse {
    pub results: Vec<SearchResult>,
    pub status: SearchStatus,
    pub progress: Option<u8>,
}

/// A client's message to the daemon.
pub enum Request {
    Hello { build_id: Vec<u8> },
    Search { query: Vec<u8>, limit: u32, path: Option<Vec<u8>>, rerank: bool },
    Health,
    Shutdown,
}

/// The daemon's answer.
pub enum Response {
    Hello { build_id: Vec<u8> },
    Search { response: SearchResponse },
    Health { status: ServerStatus },
    Error { message: Vec<u8> },
    Shutdown { success: bool },
}

/// A length-prefixed byte string.
pub open spec fn enc_bytes(b: Seq<u8>) -> Seq<u8> {
    spec_u32_to_le_bytes(b.len() as u32) + b
}

pub open spec fn enc_bool(b: bool) -> Seq<u8> {
    if b {
        seq![1u8]
    } else {
        seq![0u8]
    }
}

pub open spec fn enc_chunk_type(t: ChunkType) -> Seq<u8> {
    match t {
        ChunkType::Function => seq![0u8],
        ChunkType::Class => seq![1u8],
        ChunkType::Interface => seq![2u8],
        ChunkType::TypeAlias => seq![3u8],
        ChunkType::Block => seq![4u8],
        ChunkType::Other => seq![5u8],
    }
}

/// One search result on the wire: path, content, score (as two's-complement
/// 64-bit little-endian), line fields, chunk type and anchor flag.
pub open spec fn enc_result(r: SearchResult) -> Seq<u8> {
    enc_bytes(r.path@) + enc_bytes(r.content@) + spec_u64_to_le_bytes(r.score as u64)
        + spec_u32_to_le_bytes(r.start_line) + spec_u32_to_le_bytes(r.num_lines)
        + enc_chunk_type(r.chunk_type) + enc_bool(r.is_anchor)
}

pub open spec fn enc_results(rs: Seq<SearchResult>, i: int) -> Seq<u8>
    decreases rs.len() - i,
{
    if i < 0 || i >= rs.len() {
        Seq::empty()
    } else {
        enc_result(rs[i]) + enc_results(rs, i + 1)
    }
}

pub open spec fn enc_option_bytes(b: Option<Vec<u8>>) -> Seq<u8> {
    match b {
        Some(v) => seq![1u8] + enc_bytes(v@),
        None => seq![0u8],
    }
}

pub open spec fn enc_option_u8(b: Option<u8>) -> Seq<u8> {
    match b {
        Some(v) => seq![1u8, v],
        None => seq![0u8],
    }
}

/// The payload of a request.
pub open spec fn spec_encode_request(req: Request) -> Seq<u8> {
    match req {
        Request::Hello { build_id } => seq![1u8] + enc_bytes(build_id@),
        Request::Search { query, limit, path, rerank } => seq![2u8] + enc_bytes(query@)
            + spec_u32_to_le_bytes(limit) + enc_option_bytes(path) + enc_bool(rerank),
        Request::Health => seq![3u8],
        Request::Shutdown => seq![4u8],
    }
}

/// The payload of a response.
pub open spec fn spec_encode_response(resp: Response) -> Seq<u8> {
    match resp {
        Response::Hello { build_id } => seq![1u8] + enc_bytes(build_id@),
        Response::Search { response } => seq![2u8] + spec_u32_to_le_bytes(
            response.results@.len() as u32,
        ) + enc_results(response.results@, 0) + enc_bool(
            response.status == SearchStatus::Indexing,
        ) + enc_option_u8(response.progress),
        Response::Health { status } => seq![3u8] + enc_bool(status.indexing) + seq![
            status.progress,
        ] + spec_u32_to_le_bytes(status.files),
        Response::Error { message } => seq![4u8] + enc_bytes(message@),
        Response::Shutdown { success } => seq![5u8] + enc_bool(success),
    }
}

fn put_u32(out: &mut Vec<u8>, x: u32)
    ensures
        final(out)@ == old(out)@ + spec_u32_to_le_bytes(x),
{
    let b = u32_to_le_bytes(x);
    push_all(out, b.as_slice());
}

fn put_u64(out: &mut Vec<u8>, x: u64)
    ensures
        final(out)@ == old(out)@ + spec_u64_to_le_bytes(x),
{
    let b = u64_to_le_bytes(x);
    push_all(out, b.as_slice());
}

fn put_bytes(out: &mut Vec<u8>, b: &[u8])
    requires
        b@.len() <= 0xffff_ffff,
    ensures
        final(out)@ == old(out)@ + enc_bytes(b@),
{
    let ghost pre = out@;
    put_u32(out, b.len() as u32);
    push_all(out, b);
    proof {
        assert(final(out)@ =~= pre + enc_bytes(b@));
    }
}

fn put_bool(out: &mut Vec<u8>, b: bool)
    ensures
        final(out)@ == old(out)@ + enc_bool(b),
{
    let ghost pre = out@;
    out.push(if b {
        1
    } else {
        0
    });
    proof {
        assert(final(out)@ =~= pre + enc_bool(b));
    }
}

fn put_chunk_type(out: &mut Vec<u8>, t: ChunkType)
    ensures
        final(out)@ == old(out)@ + enc_chunk_type(t),
{
    let ghost pre = out@;
    let b: u8 = match t {
        ChunkType::Function => 0,
        ChunkType::Class => 1,
        ChunkType::Interface => 2,
        ChunkType::TypeAlias => 3,
        ChunkType::Block => 4,
        ChunkType::Other => 5,
    };
    out.push(b);
    proof {
        assert(final(out)@ =~= pre + enc_chunk_type(t));
    }
}

/// A search result or message field never exceeds the length prefix.
pub open spec fn result_sizes_ok(r: SearchResult) -> bool {
    r.path@.len() <= 0xffff_ffff && r.content@.len() <= 0xffff_ffff
}

/// Every field of the request fits its length prefix; what the encoder
/// demands and the decoder's completeness is stated for.
pub open spec fn spec_request_sizes_ok(req: Request) -> bool {
    match req {
        Request::Hello { build_id } => build_id@.len() <= 0xffff_ffff,
        Request::Search { query, path, .. } => query@.len() <= 0xffff_ffff && match path {
            Some(p) => p@.len() <= 0xffff_ffff,
            None => true,
        },
        _ => true,
    }
}

/// Every field of the response fits its length prefix.
pub open spec fn spec_response_sizes_ok(resp: Response) -> bool {
    match resp {
        Response::Hello { build_id } => build_id@.len() <= 0xffff_ffff,
        Response::Search { response } => response.results@.len() <= 0xffff_ffff && forall|i: int|
            0 <= i < response.results@.len() ==> result_sizes_ok(
                #[trigger] response.results@[i],
            ),
        Response::Error { message } => message@.len() <= 0xffff_ffff,
        _ => true,
    }
}

fn put_result(out: &mut Vec<u8>, r: &SearchResult)
    requires
        result_sizes_ok(*r),
    ensures
        final(out)@ == old(out)@ + enc_result(*r),
{
    let ghost pre = out@;
    put_bytes(out, r.path.as_slice());
    put_bytes(out, r.content.as_slice());
    proof {
        lemma_i64_u64_roundtrip(r.score);
    }
    put_u64(out, r.score as u64);
    put_u32(out, r.start_line);
    put_u32(out, r.num_lines);
    put_chunk_type(out, r.chunk_type);
    put_bool(out, r.is_anchor);
    proof {
        assert(final(out)@ =~= pre + enc_result(*r));
    }
}

proof fn lemma_i64_u64_roundtrip(x: i64)
    ensures
        ((x as u64) as i64) == x,
{
    assert(((x as u64) as i64) == x) by (bit_vector);
}

/// Encodes a request payload.
pub fn encode_request(req: &Request) -> (r: Vec<u8>)
    requires
        spec_request_sizes_ok(*req),
    ensures
        r@ == spec_encode_request(*req),
{
    let mut out: Vec<u8> = Vec::new();
    match req {
        Request::Hello { build_id } => {
            out.push(1);
            put_bytes(&mut out, build_id.as_slice());
            proof {
                assert(out@ =~= spec_encode_request(*req));
            }
        },
        Request::Search { query, limit, path, rerank } => {
            out.push(2);
            put_bytes(&mut out, query.as_slice());
            put_u32(&mut out, *limit);
            match path {
                Some(p) => {
                    out.push(1);
                    put_bytes(&mut out, p.as_slice());
                },
                None => {
                    out.push(0);
                },
            }
            put_bool(&mut out, *rerank);
            proof {
                assert(out@ =~= spec_encode_request(*req));
            }
        },
        Request::Health => {
            out.push(3);
            proof {
                assert(out@ =~= spec_encode_request(*req));
            }
        },
        Request::Shutdown => {
            out.push(4);
            proof {
                assert(out@ =~= spec_encode_request(*req));
            }
        },
    }
    out
}

/// Encodes a response payload.
#[verifier::rlimit(100)]
pub fn encode_response(resp: &Response) -> (r: Vec<u8>)
    requires
        spec_response_sizes_ok(*resp),
    ensures
        r@ == spec_encode_response(*resp),
{
    let mut out: Vec<u8> = Vec::new();
    match resp {
        Response::Hello { build_id } => {
            out.push(1);
            put_bytes(&mut out, build_id.as_slice());
            proof {
                assert(out@ =~= spec_encode_response(*resp));
            }
        },
        Response::Search { response } => {
            out.push(2);
            put_u32(&mut out, response.results.len() as u32);
            let ghost rs = response.results@;
            let mut i: usize = 0;
            let ghost pre = out@;
            proof {
                assert(out@ =~= pre + Seq::<u8>::empty());
            }
            while i < response.results.len()
                invariant
                    rs == response.results@,
                    0 <= i <= rs.len(),
                    forall|t: int| 0 <= t < rs.len() ==> result_sizes_ok(#[trigger] rs[t]),
                    out@ == pre + enc_results_upto(rs, i as int),
                decreases rs.len() - i,
            {
                let ghost mid = out@;
                put_result(&mut out, &response.results[i]);
                proof {
                    lemma_enc_results_upto_step(rs, i as int);
                    assert(out@ =~= pre + enc_results_upto(rs, i + 1));
                }
                i += 1;
            }
            proof {
                lemma_enc_results_upto_all(rs, 0);
            }
            put_bool(&mut out, matches!(response.status, SearchStatus::Indexing));
            match response.progress {
                Some(v) => {
                    out.push(1);
                    out.push(v);
                },
                None => {
                    out.push(0);
                },
            }
            proof {
                assert(out@ =~= spec_encode_response(*resp));
            }
        },
        Response::Health { status } => {
            out.push(3);
            put_bool(&mut out, status.indexing);
            out.push(status.progress);
            put_u32(&mut out, status.files);
            proof {
                assert(out@ =~= spec_encode_response(*resp));
            }
        },
        Response::Error { message } => {
            out.push(4);
            put_bytes(&mut out, message.as_slice());
            proof {
                assert(out@ =~= spec_encode_response(*resp));
            }
        },
        Response::Shutdown { success } => {
            out.push(5);
            put_bool(&mut out, *success);
            proof {
                assert(out@ =~= spec_encode_response(*resp));
            }
        },
    }
    out
}

/// The encodings of the first `i` results.
pub open spec fn enc_results_upto(rs: Seq<SearchResult>, i: int) -> Seq<u8>
    decreases i,
{
    if i <= 0 {
        Seq::empty()
    } else {
        enc_results_upto(rs, i - 1) + enc_result(rs[i - 1])
    }
}

proof fn lemma_enc_results_upto_step(rs: Seq<SearchResult>, i: int)
    requires
        0 <= i < rs.len(),
    ensures
        enc_results_upto(rs, i + 1) == enc_results_upto(rs, i) + enc_result(rs[i]),
{
}

/// Front-to-back and back-to-front encodings of a result list agree.
proof fn lemma_enc_results_upto_all(rs: Seq<SearchResult>, i: int)
    requires
        0 <= i <= rs.len(),
    ensures
        enc_results_upto(rs, rs.len() as int) == enc_results_upto(rs, i) + enc_results(rs, i),
    decreases rs.len() - i,
{
    if i < rs.len() {
        lemma_enc_results_upto_all(rs, i + 1);
        lemma_enc_results_upto_step(rs, i);
        assert((enc_results_upto(rs, i) + enc_result(rs[i])) + enc_results(rs, i + 1)
            =~= enc_results_upto(rs, i) + (enc_result(rs[i]) + enc_results(rs, i + 1)));
    } else {
        assert(enc_results_upto(rs, i) + enc_results(rs, i) =~= enc_results_upto(rs, i));
    }
}

/// Frames a payload for the socket: its `u32` little-endian length, then
/// the payload itself.
pub fn encode_frame(payload: &[u8]) -> (r: Vec<u8>)
    requires
        payload@.len() <= 0xffff_ffff,
    ensures
        r@ == spec_u32_to_le_bytes(payload@.len() as u32) + payload@,
{
    let mut out: Vec<u8> = Vec::new();
    put_u32(&mut out, payload.len() as u32);
    push_all(&mut out, payload);
    out
}

/// Reads a frame header: the payload length announced by the first four
/// bytes, or `None` when fewer than four bytes are in hand.
pub fn decode_frame_len(buf: &[u8]) -> (r: Option<u32>)
    ensures
        match r {
            Some(n) => buf@.len() >= 4 && n == spec_u32_from_le_bytes(buf@.subrange(0, 4)),
            None => buf@.len() < 4,
        },
{
    if buf.len() < 4 {
        return None;
    }
    let head = vstd::slice::slice_subrange(buf, 0, 4);
    Some(u32_from_le_bytes(head))
}

fn get_u8(buf: &[u8], pos: usize) -> (r: Option<(u8, usize)>)
    ensures
        match r {
            Some((x, p2)) => p2 == pos + 1 && p2 <= buf@.len() && seq![x] == buf@.subrange(
                pos as int,
                p2 as int,
            ),
            None => pos + 1 > buf@.len(),
        },
{
    if pos < buf.len() {
        let x = buf[pos];
        proof {
            assert(seq![x] =~= buf@.subrange(pos as int, pos + 1));
        }
        Some((x, pos + 1))
    } else {
        None
    }
}

fn get_u32(buf: &[u8], pos: usize) -> (r: Option<(u32, usize)>)
    ensures
        match r {
            Some((x, p2)) => p2 == pos + 4 && p2 <= buf@.len() && spec_u32_to_le_bytes(x)
                == buf@.subrange(pos as int, p2 as int),
            None => pos + 4 > buf@.len(),
        },
{
    if buf.len() >= 4 && pos <= buf.len() - 4 {
        let s = vstd::slice::slice_subrange(buf, pos, pos + 4);
        let x = u32_from_le_bytes(s);
        proof {
            lemma_auto_spec_u32_to_from_le_bytes();
        }
        Some((x, pos + 4))
    } else {
        None
    }
}

fn get_u64(buf: &[u8], pos: usize) -> (r: Option<(u64, usize)>)
    ensures
        match r {
            Some((x, p2)) => p2 == pos + 8 && p2 <= buf@.len() && spec_u64_to_le_bytes(x)
                == buf@.subrange(pos as int, p2 as int),
            None => pos + 8 > buf@.len(),
        },
{
    if buf.len() >= 8 && pos <= buf.len() - 8 {
        let s = vstd::slice::slice_subrange(buf, pos, pos + 8);
        let x = u64_from_le_bytes(s);
        proof {
            lemma_auto_spec_u64_to_from_le_bytes();
        }
        Some((x, pos + 8))
    } else {
        None
    }
}

fn get_bytes(buf: &[u8], pos: usize) -> (r: Option<(Vec<u8>, usize)>)
    ensures
        match r {
            Some((v, p2)) => pos <= p2 <= buf@.len() && enc_bytes(v@) == buf@.subrange(
                pos as int,
                p2 as int,
            ) && v@.len() <= 0xffff_ffff && p2 == pos + 4 + v@.len(),
            None => pos + 4 > buf@.len() || pos + 4 + spec_u32_from_le_bytes(
                buf@.subrange(pos as int, pos + 4),
            ) as int > buf@.len(),
        },
{
    match get_u32(buf, pos) {
        Some((n, p)) => {
            proof {
                lemma_auto_spec_u32_to_from_le_bytes();
                assert(spec_u32_to_le_bytes(n) == buf@.subrange(pos as int, pos + 4));
                assert(spec_u32_from_le_bytes(spec_u32_to_le_bytes(n)) == n);
                assert(spec_u32_from_le_bytes(buf@.subrange(pos as int, pos + 4)) == n);
            }
            if n as usize <= buf.len() && p <= buf.len() - (n as usize) {
                let v = crate::bytes::sub_vec(buf, p, p + (n as usize));
                proof {
                    assert(enc_bytes(v@) =~= buf@.subrange(pos as int, p + n as usize));
                }
                Some((v, p + (n as usize)))
            } else {
                None
            }
        },
        None => None,
    }
}

fn get_bool(buf: &[u8], pos: usize) -> (r: Option<(bool, usize)>)
    ensures
        match r {
            Some((x, p2)) => p2 == pos + 1 && p2 <= buf@.len() && enc_bool(x) == buf@.subrange(
                pos as int,
                p2 as int,
            ),
            None => pos + 1 > buf@.len() || (buf@[pos as int] != 0 && buf@[pos as int] != 1),
        },
{
    match get_u8(buf, pos) {
        Some((x, p2)) => {
            if x == 1 {
                proof {
                    assert(enc_bool(true) =~= buf@.subrange(pos as int, p2 as int));
                }
                Some((true, p2))
            } else if x == 0 {
                proof {
                    assert(enc_bool(false) =~= buf@.subrange(pos as int, p2 as int));
                }
                Some((false, p2))
            } else {
                proof {
                    assert(seq![x][0] == buf@.subrange(pos as int, pos + 1)[0]);
                    assert(buf@[pos as int] == x);
                }
                None
            }
        },
        None => None,
    }
}

fn get_chunk_type(buf: &[u8], pos: usize) -> (r: Option<(ChunkType, usize)>)
    ensures
        match r {
            Some((x, p2)) => p2 == pos + 1 && p2 <= buf@.len() && enc_chunk_type(x)
                == buf@.subrange(pos as int, p2 as int),
            None => pos + 1 > buf@.len() || buf@[pos as int] > 5,
        },
{
    match get_u8(buf, pos) {
        Some((x, p2)) => {
            let t: Option<ChunkType> = if x == 0 {
                Some(ChunkType::Function)
            } else if x == 1 {
                Some(ChunkType::Class)
            } else if x == 2 {
                Some(ChunkType::Interface)
            } else if x == 3 {
                Some(ChunkType::TypeAlias)
            } else if x == 4 {
                Some(ChunkType::Block)
            } else if x == 5 {
                Some(ChunkType::Other)
            } else {
                None
            };
            match t {
                Some(ct) => {
                    proof {
                        assert(enc_chunk_type(ct) =~= buf@.subrange(pos as int, p2 as int));
                    }
                    Some((ct, p2))
                },
                None => {
                    proof {
                        assert(seq![x][0] == buf@.subrange(pos as int, pos + 1)[0]);
                        assert(buf@[pos as int] == x);
                    }
                    None
                },
            }
        },
        None => None,
    }
}


/// Where each field of an encoded result sits: the two length prefixes
/// read back as the field lengths, every field fits, and the trailing tag
/// bytes are in range.
#[verifier::rlimit(100)]
#[verifier::spinoff_prover]
proof fn lemma_result_layout(buf: Seq<u8>, pos: int, v: SearchResult)
    requires
        result_sizes_ok(v),
        0 <= pos,
        pos + enc_result(v).len() <= buf.len(),
        buf.subrange(pos, pos + enc_result(v).len() as int) == enc_result(v),
    ensures
        enc_result(v).len() == v.path@.len() + v.content@.len() + 26,
        buf.subrange(pos, pos + 4) == spec_u32_to_le_bytes(v.path@.len() as u32),
        spec_u32_from_le_bytes(buf.subrange(pos, pos + 4)) as int == v.path@.len(),
        buf.subrange(pos + 4 + v.path@.len(), pos + 8 + v.path@.len()) == spec_u32_to_le_bytes(
            v.content@.len() as u32,
        ),
        spec_u32_from_le_bytes(
            buf.subrange(pos + 4 + v.path@.len(), pos + 8 + v.path@.len()),
        ) as int == v.content@.len(),
        buf[pos + 24 + v.path@.len() + v.content@.len()] <= 5,
        buf[pos + 25 + v.path@.len() + v.content@.len()] == 0 || buf[pos + 25 + v.path@.len()
            + v.content@.len()] == 1,
{
    lemma_auto_spec_u32_to_from_le_bytes();
    lemma_auto_spec_u64_to_from_le_bytes();
    let e = enc_result(v);
    let pl = v.path@.len() as int;
    let cl = v.content@.len() as int;
    assert(spec_u32_to_le_bytes(v.path@.len() as u32).len() == 4);
    assert(spec_u32_to_le_bytes(v.content@.len() as u32).len() == 4);
    assert(spec_u32_to_le_bytes(v.start_line).len() == 4);
    assert(spec_u32_to_le_bytes(v.num_lines).len() == 4);
    assert(spec_u64_to_le_bytes(v.score as u64).len() == 8);
    assert(enc_chunk_type(v.chunk_type).len() == 1);
    assert(enc_bool(v.is_anchor).len() == 1);
    assert(e.len() == pl + cl + 26);
    let le = e.len() as int;
    assert(forall|i: int| 0 <= i < le ==> buf[pos + i] == e[i]) by {
        assert(forall|i: int|
            0 <= i < le ==> buf.subrange(pos, pos + le)[i] == #[trigger] e[i]);
    }
    let fa = enc_bytes(v.path@);
    let fb = enc_bytes(v.content@);
    let fc = spec_u64_to_le_bytes(v.score as u64);
    let fd = spec_u32_to_le_bytes(v.start_line);
    let fe = spec_u32_to_le_bytes(v.num_lines);
    let ff = enc_chunk_type(v.chunk_type);
    let fg = enc_bool(v.is_anchor);
    assert(e == fa + fb + fc + fd + fe + ff + fg);
    assert(fa.len() == 4 + pl && fb.len() == 4 + cl);
    assert(forall|i: int| 0 <= i < fa.len() ==> e[i] == #[trigger] fa[i]);
    assert(forall|i: int| 0 <= i < fb.len() ==> e[fa.len() + i] == #[trigger] fb[i]);
    assert(e[24 + pl + cl] == ff[0]);
    assert(e[25 + pl + cl] == fg[0]);
    assert(buf.subrange(pos, pos + 4) =~= spec_u32_to_le_bytes(v.path@.len() as u32)) by {
        assert(forall|i: int|
            0 <= i < 4 ==> fa[i] == #[trigger] spec_u32_to_le_bytes(v.path@.len() as u32)[i]);
    }
    assert(buf.subrange(pos + 4 + pl, pos + 8 + pl) =~= spec_u32_to_le_bytes(
        v.content@.len() as u32,
    )) by {
        assert(forall|i: int|
            0 <= i < 4 ==> fb[i] == #[trigger] spec_u32_to_le_bytes(
                v.content@.len() as u32,
            )[i]);
    }
    assert(buf[pos + 24 + pl + cl] == ff[0]);
    assert(ff[0] <= 5);
    assert(buf[pos + 25 + pl + cl] == fg[0]);
    assert(fg[0] == 0 || fg[0] == 1);
}

/// A decoded length-prefixed field under an encoded-result hypothesis:
/// reading at the start of a known prefix pins the end position.
proof fn lemma_bytes_field_end(buf: Seq<u8>, q: int, field: Seq<u8>, got: Seq<u8>, p2: int)
    requires
        0 <= q,
        p2 == q + 4 + got.len(),
        p2 <= buf.len(),
        enc_bytes(got) == buf.subrange(q, p2),
        buf.subrange(q, q + 4) == spec_u32_to_le_bytes(field.len() as u32),
        field.len() <= 0xffff_ffff,
        got.len() <= 0xffff_ffff,
    ensures
        got.len() == field.len(),
        p2 == q + 4 + field.len(),
{
    lemma_auto_spec_u32_to_from_le_bytes();
    assert(spec_u32_to_le_bytes(got.len() as u32) =~= buf.subrange(q, q + 4)) by {
        assert(forall|i: int|
            0 <= i < 4 ==> enc_bytes(got)[i] == #[trigger] spec_u32_to_le_bytes(
                got.len() as u32,
            )[i]);
        assert(forall|i: int|
            0 <= i < 4 ==> buf.subrange(q, q + 4)[i] == buf.subrange(q, p2)[i]);
    }
    assert(spec_u32_from_le_bytes(spec_u32_to_le_bytes(got.len() as u32)) == got.len() as u32);
    assert(spec_u32_from_le_bytes(spec_u32_to_le_bytes(field.len() as u32))
        == field.len() as u32);
}

/// The hypothesis the completeness clauses quantify over: an encoded
/// result of `v` sits at `pos`.
pub open spec fn result_at(buf: Seq<u8>, pos: int, v: SearchResult) -> bool {
    &&& result_sizes_ok(v)
    &&& 0 <= pos
    &&& pos + enc_result(v).len() <= buf.len()
    &&& buf.subrange(pos, pos + enc_result(v).len() as int) == enc_result(v)
}

#[verifier::rlimit(100)]
#[verifier::spinoff_prover]
fn get_result(buf: &[u8], pos: usize) -> (r: Option<(SearchResult, usize)>)
    ensures
        match r {
            Some((v, p2)) => pos <= p2 <= buf@.len() && enc_result(v) == buf@.subrange(
                pos as int,
                p2 as int,
            ),
            None => true,
        },
        forall|v: SearchResult|
            #[trigger] result_at(buf@, pos as int, v) ==> (r matches Some(x) && x.1 == pos
                + enc_result(v).len()),
{
    let (path, p1) = match get_bytes(buf, pos) {
        Some(x) => x,
        None => {
            proof {
                assert forall|v: SearchResult| !(#[trigger] result_at(buf@, pos as int,
                v)) by {
                    if result_at(buf@, pos as int, v) {
                        lemma_result_layout(buf@, pos as int, v);
                    }
                }
            }
            return None;
        },
    };
    proof {
        assert forall|v: SearchResult| #[trigger] result_at(buf@, pos as int, v) implies p1
            == pos + 4 + v.path@.len() by {
            lemma_result_layout(buf@, pos as int, v);
            lemma_bytes_field_end(buf@, pos as int, v.path@, path@, p1 as int);
        }
    }
    let (content, p2) = match get_bytes(buf, p1) {
        Some(x) => x,
        None => {
            proof {
                assert forall|v: SearchResult| !(#[trigger] result_at(buf@, pos as int,
                v)) by {
                    if result_at(buf@, pos as int, v) {
                        lemma_result_layout(buf@, pos as int, v);
                    }
                }
            }
            return None;
        },
    };
    proof {
        assert forall|v: SearchResult| #[trigger] result_at(buf@, pos as int, v) implies p2
            == pos + 8 + v.path@.len() + v.content@.len() by {
            lemma_result_layout(buf@, pos as int, v);
            lemma_bytes_field_end(buf@, pos as int, v.path@, path@, p1 as int);
            lemma_bytes_field_end(buf@, p1 as int, v.content@, content@, p2 as int);
        }
    }
    let (score_bits, p3) = match get_u64(buf, p2) {
        Some(x) => x,
        None => {
            proof {
                assert forall|v: SearchResult| !(#[trigger] result_at(buf@, pos as int,
                v)) by {
                    if result_at(buf@, pos as int, v) {
                        lemma_result_layout(buf@, pos as int, v);
                        lemma_bytes_field_end(buf@, pos as int, v.path@, path@, p1 as int);
                        lemma_bytes_field_end(buf@, p1 as int, v.content@, content@,
                            p2 as int);
                    }
                }
            }
            return None;
        },
    };
    let (start_line, p4) = match get_u32(buf, p3) {
        Some(x) => x,
        None => {
            proof {
                assert forall|v: SearchResult| !(#[trigger] result_at(buf@, pos as int,
                v)) by {
                    if result_at(buf@, pos as int, v) {
                        lemma_result_layout(buf@, pos as int, v);
                        lemma_bytes_field_end(buf@, pos as int, v.path@, path@, p1 as int);
                        lemma_bytes_field_end(buf@, p1 as int, v.content@, content@,
                            p2 as int);
                    }
                }
            }
            return None;
        },
    };
    let (num_lines, p5) = match get_u32(buf, p4) {
        Some(x) => x,
        None => {
            proof {
                assert forall|v: SearchResult| !(#[trigger] result_at(buf@, pos as int,
                v)) by {
                    if result_at(buf@, pos as int, v) {
                        lemma_result_layout(buf@, pos as int, v);
                        lemma_bytes_field_end(buf@, pos as int, v.path@, path@, p1 as int);
                        lemma_bytes_field_end(buf@, p1 as int, v.content@, content@,
                            p2 as int);
                    }
                }
            }
            return None;
        },
    };
    let (chunk_type, p6) = match get_chunk_type(buf, p5) {
        Some(x) => x,
        None => {
            proof {
                assert forall|v: SearchResult| !(#[trigger] result_at(buf@, pos as int,
                v)) by {
                    if result_at(buf@, pos as int, v) {
                        lemma_result_layout(buf@, pos as int, v);
                        lemma_bytes_field_end(buf@, pos as int, v.path@, path@, p1 as int);
                        lemma_bytes_field_end(buf@, p1 as int, v.content@, content@,
                            p2 as int);
                    }
                }
            }
            return None;
        },
    };
    let (is_anchor, p7) = match get_bool(buf, p6) {
        Some(x) => x,
        None => {
            proof {
                assert forall|v: SearchResult| !(#[trigger] result_at(buf@, pos as int,
                v)) by {
                    if result_at(buf@, pos as int, v) {
                        lemma_result_layout(buf@, pos as int, v);
                        lemma_bytes_field_end(buf@, pos as int, v.path@, path@, p1 as int);
                        lemma_bytes_field_end(buf@, p1 as int, v.content@, content@,
                            p2 as int);
                    }
                }
            }
            return None;
        },
    };
    proof {
        assert forall|v: SearchResult| #[trigger] result_at(buf@, pos as int, v) implies p7
            == pos + enc_result(v).len() by {
            lemma_result_layout(buf@, pos as int, v);
            lemma_bytes_field_end(buf@, pos as int, v.path@, path@, p1 as int);
            lemma_bytes_field_end(buf@, p1 as int, v.content@, content@, p2 as int);
        }
    }
    #[verifier::truncate]
    let score: i64 = score_bits as i64;
    let v = SearchResult { path, content, score, start_line, num_lines, chunk_type, is_anchor };
    proof {
        assert(score_bits == ((score_bits as i64) as u64)) by (bit_vector);
        assert(score_bits == v.score as u64);
        assert(enc_result(v) =~= buf@.subrange(pos as int, p7 as int));
    }
    Some((v, p7))
}


/// Where each field of an encoded request sits.
#[verifier::rlimit(100)]
#[verifier::spinoff_prover]
proof fn lemma_request_layout(buf: Seq<u8>, req: Request)
    requires
        spec_request_sizes_ok(req),
        buf == spec_encode_request(req),
    ensures
        buf.len() >= 1,
        req matches Request::Hello { build_id } ==> buf[0] == 1 && buf.len() == 5
            + build_id@.len() && buf.subrange(1, 5) == spec_u32_to_le_bytes(
            build_id@.len() as u32,
        ),
        req matches Request::Health ==> buf[0] == 3 && buf.len() == 1,
        req matches Request::Shutdown ==> buf[0] == 4 && buf.len() == 1,
        req matches Request::Search { query, limit, path, rerank } ==> {
            let ql = query@.len() as int;
            &&& buf[0] == 2
            &&& buf.subrange(1, 5) == spec_u32_to_le_bytes(query@.len() as u32)
            &&& buf.subrange(5 + ql, 9 + ql) == spec_u32_to_le_bytes(limit)
            &&& match path {
                Some(pv) => {
                    let pl = pv@.len() as int;
                    &&& buf[9 + ql] == 1
                    &&& buf.subrange(10 + ql, 14 + ql) == spec_u32_to_le_bytes(
                        pv@.len() as u32,
                    )
                    &&& buf.len() == 15 + ql + pl
                    &&& (buf[14 + ql + pl] == 0 || buf[14 + ql + pl] == 1)
                },
                None => {
                    &&& buf[9 + ql] == 0
                    &&& buf.len() == 11 + ql
                    &&& (buf[10 + ql] == 0 || buf[10 + ql] == 1)
                },
            }
        },
{
    lemma_auto_spec_u32_to_from_le_bytes();
    match req {
        Request::Hello { build_id } => {
            let fa = enc_bytes(build_id@);
            assert(buf == seq![1u8] + fa);
            assert(forall|i: int| 0 <= i < fa.len() ==> buf[1 + i] == #[trigger] fa[i]);
            assert(buf.subrange(1, 5) =~= spec_u32_to_le_bytes(build_id@.len() as u32)) by {
                assert(forall|i: int|
                    0 <= i < 4 ==> fa[i] == #[trigger] spec_u32_to_le_bytes(
                        build_id@.len() as u32,
                    )[i]);
            }
        },
        Request::Search { query, limit, path, rerank } => {
            let ql = query@.len() as int;
            let fa = enc_bytes(query@);
            let fb = spec_u32_to_le_bytes(limit);
            let fc = enc_option_bytes(path);
            let fd = enc_bool(rerank);
            assert(buf == seq![2u8] + fa + fb + fc + fd);
            assert(fa.len() == 4 + ql);
            assert(forall|i: int| 0 <= i < fa.len() ==> buf[1 + i] == #[trigger] fa[i]);
            assert(forall|i: int| 0 <= i < 4 ==> buf[5 + ql + i] == #[trigger] fb[i]);
            assert(forall|i: int|
                0 <= i < fc.len() ==> buf[9 + ql + i] == #[trigger] fc[i]);
            assert(buf.subrange(1, 5) =~= spec_u32_to_le_bytes(query@.len() as u32)) by {
                assert(forall|i: int|
                    0 <= i < 4 ==> fa[i] == #[trigger] spec_u32_to_le_bytes(
                        query@.len() as u32,
                    )[i]);
            }
            assert(buf.subrange(5 + ql, 9 + ql) =~= spec_u32_to_le_bytes(limit));
            match path {
                Some(pv) => {
                    let pl = pv@.len() as int;
                    let fe = enc_bytes(pv@);
                    assert(fc == seq![1u8] + fe);
                    assert(fe.len() == 4 + pl);
                    assert(buf[9 + ql] == 1);
                    assert(forall|i: int|
                        0 <= i < fe.len() ==> buf[10 + ql + i] == #[trigger] fe[i]);
                    assert(buf.subrange(10 + ql, 14 + ql) =~= spec_u32_to_le_bytes(
                        pv@.len() as u32,
                    )) by {
                        assert(forall|i: int|
                            0 <= i < 4 ==> fe[i] == #[trigger] spec_u32_to_le_bytes(
                                pv@.len() as u32,
                            )[i]);
                    }
                    assert(buf[14 + ql + pl] == fd[0]);
                    assert(fd[0] == 0 || fd[0] == 1);
                },
                None => {
                    assert(fc == seq![0u8]);
                    assert(buf[9 + ql] == 0);
                    assert(buf[10 + ql] == fd[0]);
                    assert(fd[0] == 0 || fd[0] == 1);
                },
            }
        },
        Request::Health => {
        },
        Request::Shutdown => {
        },
    }
}

/// A field-end chaining fact for requests: same shape as for results.
proof fn lemma_req_field_end(buf: Seq<u8>, q: int, field: Seq<u8>, got: Seq<u8>, p2: int)
    requires
        0 <= q,
        p2 == q + 4 + got.len(),
        p2 <= buf.len(),
        enc_bytes(got) == buf.subrange(q, p2),
        buf.subrange(q, q + 4) == spec_u32_to_le_bytes(field.len() as u32),
        field.len() <= 0xffff_ffff,
        got.len() <= 0xffff_ffff,
    ensures
        got.len() == field.len(),
        p2 == q + 4 + field.len(),
{
    lemma_bytes_field_end(buf, q, field, got, p2);
}

/// Decodes a request payload. Whatever it accepts re-encodes to exactly the
/// bytes it was given, so no message is ever misread into another; and
/// every encodable request's payload is accepted, so no message is ever
/// dropped.
#[verifier::rlimit(100)]
#[verifier::spinoff_prover]
pub fn decode_request(buf: &[u8]) -> (r: Option<Request>)
    ensures
        match r {
            Some(req) => buf@ == spec_encode_request(req),
            None => true,
        },
        forall|req: Request|
            spec_request_sizes_ok(req) && buf@ == #[trigger] spec_encode_request(req) ==> r
                is Some,
{
    let (tag, p0) = match get_u8(buf, 0) {
        Some(x) => x,
        None => {
            proof {
                assert forall|req: Request|
                    !(spec_request_sizes_ok(req) && buf@ == #[trigger] spec_encode_request(
                        req,
                    )) by {
                    if spec_request_sizes_ok(req) && buf@ == spec_encode_request(req) {
                        lemma_request_layout(buf@, req);
                    }
                }
            }
            return None;
        },
    };
    proof {
        assert(seq![tag][0] == buf@.subrange(0, p0 as int)[0]);
        assert(buf@[0] == tag);
        lemma_auto_spec_u32_to_from_le_bytes();
    }
    if tag == 1 {
        let (build_id, p1) = match get_bytes(buf, p0) {
            Some(x) => x,
            None => {
                proof {
                    assert forall|req: Request|
                        !(spec_request_sizes_ok(req) && buf@ == #[trigger] spec_encode_request(
                            req,
                        )) by {
                        if spec_request_sizes_ok(req) && buf@ == spec_encode_request(req) {
                            lemma_request_layout(buf@, req);
                        }
                    }
                }
                return None;
            },
        };
        if p1 != buf.len() {
            proof {
                assert forall|req: Request|
                    !(spec_request_sizes_ok(req) && buf@ == #[trigger] spec_encode_request(
                        req,
                    )) by {
                    if spec_request_sizes_ok(req) && buf@ == spec_encode_request(req) {
                        lemma_request_layout(buf@, req);
                        match req {
                            Request::Hello { build_id: b } => {
                                lemma_req_field_end(buf@, 1, b@, build_id@, p1 as int);
                            },
                            _ => {
                            },
                        }
                    }
                }
            }
            return None;
        }
        let req = Request::Hello { build_id };
        proof {
            assert(buf@ =~= spec_encode_request(req));
        }
        Some(req)
    } else if tag == 2 {
        let (query, p1) = match get_bytes(buf, p0) {
            Some(x) => x,
            None => {
                proof {
                    assert forall|req: Request|
                        !(spec_request_sizes_ok(req) && buf@ == #[trigger] spec_encode_request(
                            req,
                        )) by {
                        if spec_request_sizes_ok(req) && buf@ == spec_encode_request(req) {
                            lemma_request_layout(buf@, req);
                        }
                    }
                }
                return None;
            },
        };
        proof {
            assert forall|req: Request|
                spec_request_sizes_ok(req) && buf@ == #[trigger] spec_encode_request(req)
                    implies (req matches Request::Search { query: q, .. } && p1 == 5
                    + q@.len()) by {
                lemma_request_layout(buf@, req);
                match req {
                    Request::Search { query: q, .. } => {
                        lemma_req_field_end(buf@, 1, q@, query@, p1 as int);
                    },
                    _ => {
                    },
                }
            }
        }
        let (limit, p2) = match get_u32(buf, p1) {
            Some(x) => x,
            None => {
                proof {
                    assert forall|req: Request|
                        !(spec_request_sizes_ok(req) && buf@ == #[trigger] spec_encode_request(
                            req,
                        )) by {
                        if spec_request_sizes_ok(req) && buf@ == spec_encode_request(req) {
                            lemma_request_layout(buf@, req);
                        }
                    }
                }
                return None;
            },
        };
        let (path_tag, p3) = match get_u8(buf, p2) {
            Some(x) => x,
            None => {
                proof {
                    assert forall|req: Request|
                        !(spec_request_sizes_ok(req) && buf@ == #[trigger] spec_encode_request(
                            req,
                        )) by {
                        if spec_request_sizes_ok(req) && buf@ == spec_encode_request(req) {
                            lemma_request_layout(buf@, req);
                        }
                    }
                }
                return None;
            },
        };
        proof {
            assert forall|req: Request|
                spec_request_sizes_ok(req) && buf@ == #[trigger] spec_encode_request(req)
                    implies (req matches Request::Search { path: pa, .. } && (path_tag
                    == 1 <==> pa is Some) && (path_tag == 0 <==> pa is None)) by {
                lemma_request_layout(buf@, req);
                assert(seq![path_tag][0] == buf@.subrange(p2 as int, p3 as int)[0]);
            }
        }
        let (path, p4): (Option<Vec<u8>>, usize) = if path_tag == 1 {
            match get_bytes(buf, p3) {
                Some((v, p)) => (Some(v), p),
                None => {
                    proof {
                        assert forall|req: Request|
                            !(spec_request_sizes_ok(req) && buf@
                                == #[trigger] spec_encode_request(req)) by {
                            if spec_request_sizes_ok(req) && buf@ == spec_encode_request(
                                req,
                            ) {
                                lemma_request_layout(buf@, req);
                            }
                        }
                    }
                    return None;
                },
            }
        } else if path_tag == 0 {
            (None, p3)
        } else {
            proof {
                assert forall|req: Request|
                    !(spec_request_sizes_ok(req) && buf@ == #[trigger] spec_encode_request(
                        req,
                    )) by {
                    if spec_request_sizes_ok(req) && buf@ == spec_encode_request(req) {
                        lemma_request_layout(buf@, req);
                        assert(seq![path_tag][0] == buf@.subrange(p2 as int, p3 as int)[0]);
                    }
                }
            }
            return None;
        };
        proof {
            assert forall|req: Request|
                spec_request_sizes_ok(req) && buf@ == #[trigger] spec_encode_request(req)
                    implies (req matches Request::Search { path: pa, .. } && p4 as int
                    == match pa {
                    Some(pv) => 14 + (p1 - 5) + pv@.len(),
                    None => p3 as int,
                }) by {
                lemma_request_layout(buf@, req);
                match req {
                    Request::Search { query: q, path: pa, .. } => {
                        lemma_req_field_end(buf@, 1, q@, query@, p1 as int);
                        match (pa, &path) {
                            (Some(pv), Some(got)) => {
                                lemma_req_field_end(buf@, p3 as int, pv@, got@, p4 as int);
                            },
                            _ => {
                            },
                        }
                    },
                    _ => {
                    },
                }
            }
        }
        let (rerank, p5) = match get_bool(buf, p4) {
            Some(x) => x,
            None => {
                proof {
                    assert forall|req: Request|
                        !(spec_request_sizes_ok(req) && buf@ == #[trigger] spec_encode_request(
                            req,
                        )) by {
                        if spec_request_sizes_ok(req) && buf@ == spec_encode_request(req) {
                            lemma_request_layout(buf@, req);
                        }
                    }
                }
                return None;
            },
        };
        if p5 != buf.len() {
            proof {
                assert forall|req: Request|
                    !(spec_request_sizes_ok(req) && buf@ == #[trigger] spec_encode_request(
                        req,
                    )) by {
                    if spec_request_sizes_ok(req) && buf@ == spec_encode_request(req) {
                        lemma_request_layout(buf@, req);
                    }
                }
            }
            return None;
        }
        let req = Request::Search { query, limit, path, rerank };
        proof {
            assert(buf@ =~= spec_encode_request(req));
        }
        Some(req)
    } else if tag == 3 {
        if p0 != buf.len() {
            proof {
                assert forall|req: Request|
                    !(spec_request_sizes_ok(req) && buf@ == #[trigger] spec_encode_request(
                        req,
                    )) by {
                    if spec_request_sizes_ok(req) && buf@ == spec_encode_request(req) {
                        lemma_request_layout(buf@, req);
                    }
                }
            }
            return None;
        }
        proof {
            assert(buf@ =~= spec_encode_request(Request::Health));
        }
        Some(Request::Health)
    } else if tag == 4 {
        if p0 != buf.len() {
            proof {
                assert forall|req: Request|
                    !(spec_request_sizes_ok(req) && buf@ == #[trigger] spec_encode_request(
                        req,
                    )) by {
                    if spec_request_sizes_ok(req) && buf@ == spec_encode_request(req) {
                        lemma_request_layout(buf@, req);
                    }
                }
            }
            return None;
        }
        proof {
            assert(buf@ =~= spec_encode_request(Request::Shutdown));
        }
        Some(Request::Shutdown)
    } else {
        proof {
            assert forall|req: Request|
                !(spec_request_sizes_ok(req) && buf@ == #[trigger] spec_encode_request(
                    req,
                )) by {
                if spec_request_sizes_ok(req) && buf@ == spec_encode_request(req) {
                    lemma_request_layout(buf@, req);
                    assert(seq![tag][0] == buf@.subrange(0, 1)[0]);
                }
            }
        }
        None
    }
}


/// Where each field of an encoded response sits; for a search response,
/// where each encoded result sits.
#[verifier::rlimit(100)]
#[verifier::spinoff_prover]
proof fn lemma_response_layout(buf: Seq<u8>, resp: Response)
    requires
        spec_response_sizes_ok(resp),
        buf == spec_encode_response(resp),
    ensures
        buf.len() >= 1,
        resp matches Response::Hello { build_id } ==> buf[0] == 1 && buf.len() == 5
            + build_id@.len() && buf.subrange(1, 5) == spec_u32_to_le_bytes(
            build_id@.len() as u32,
        ),
        resp matches Response::Error { message } ==> buf[0] == 4 && buf.len() == 5
            + message@.len() && buf.subrange(1, 5) == spec_u32_to_le_bytes(
            message@.len() as u32,
        ),
        resp matches Response::Health { status } ==> buf[0] == 3 && buf.len() == 7 && (buf[1]
            == 0 || buf[1] == 1) && buf.subrange(3, 7) == spec_u32_to_le_bytes(status.files),
        resp matches Response::Shutdown { success } ==> buf[0] == 5 && buf.len() == 2 && (
        buf[1] == 0 || buf[1] == 1),
        resp matches Response::Search { response } ==> {
            let rs = response.results@;
            let rl = enc_results(rs, 0).len() as int;
            &&& buf[0] == 2
            &&& buf.subrange(1, 5) == spec_u32_to_le_bytes(rs.len() as u32)
            &&& (buf[5 + rl] == 0 || buf[5 + rl] == 1)
            &&& (buf[6 + rl] == 0 || buf[6 + rl] == 1)
            &&& buf.len() == 7 + rl + (if response.progress is Some {
                1int
            } else {
                0int
            })
            &&& forall|i: int|
                0 <= i < rs.len() ==> result_at(
                    buf,
                    5 + enc_results_upto(rs, i).len() as int,
                    #[trigger] rs[i],
                )
        },
{
    lemma_auto_spec_u32_to_from_le_bytes();
    match resp {
        Response::Hello { build_id } => {
            let fa = enc_bytes(build_id@);
            assert(buf == seq![1u8] + fa);
            assert(forall|i: int| 0 <= i < fa.len() ==> buf[1 + i] == #[trigger] fa[i]);
            assert(buf.subrange(1, 5) =~= spec_u32_to_le_bytes(build_id@.len() as u32)) by {
                assert(forall|i: int|
                    0 <= i < 4 ==> fa[i] == #[trigger] spec_u32_to_le_bytes(
                        build_id@.len() as u32,
                    )[i]);
            }
        },
        Response::Error { message } => {
            let fa = enc_bytes(message@);
            assert(buf == seq![4u8] + fa);
            assert(forall|i: int| 0 <= i < fa.len() ==> buf[1 + i] == #[trigger] fa[i]);
            assert(buf.subrange(1, 5) =~= spec_u32_to_le_bytes(message@.len() as u32)) by {
                assert(forall|i: int|
                    0 <= i < 4 ==> fa[i] == #[trigger] spec_u32_to_le_bytes(
                        message@.len() as u32,
                    )[i]);
            }
        },
        Response::Health { status } => {
            let fb = enc_bool(status.indexing);
            let fc = spec_u32_to_le_bytes(status.files);
            assert(buf == seq![3u8] + fb + seq![status.progress] + fc);
            assert(buf[1] == fb[0]);
            assert(fb[0] == 0 || fb[0] == 1);
            assert(buf.subrange(3, 7) =~= fc);
        },
        Response::Shutdown { success } => {
            let fb = enc_bool(success);
            assert(buf == seq![5u8] + fb);
            assert(buf[1] == fb[0]);
        },
        Response::Search { response } => {
            let rs = response.results@;
            let fa = spec_u32_to_le_bytes(rs.len() as u32);
            let fr = enc_results(rs, 0);
            let fb = enc_bool(response.status == SearchStatus::Indexing);
            let fo = enc_option_u8(response.progress);
            let rl = fr.len() as int;
            assert(buf == seq![2u8] + fa + fr + fb + fo);
            assert(forall|i: int| 0 <= i < 4 ==> buf[1 + i] == #[trigger] fa[i]);
            assert(buf.subrange(1, 5) =~= fa);
            assert(forall|i: int| 0 <= i < rl ==> buf[5 + i] == #[trigger] fr[i]);
            assert(buf[5 + rl] == fb[0]);
            assert(fb[0] == 0 || fb[0] == 1);
            assert(buf[6 + rl] == fo[0]);
            assert(fo[0] == 0 || fo[0] == 1);
            assert forall|i: int| 0 <= i < rs.len() implies result_at(
                buf,
                5 + enc_results_upto(rs, i).len() as int,
                #[trigger] rs[i],
            ) by {
                lemma_enc_results_upto_all(rs, 0);
                assert(enc_results_upto(rs, 0) =~= Seq::<u8>::empty());
                assert(Seq::<u8>::empty() + enc_results(rs, 0) =~= enc_results(rs, 0));
                assert(fr == enc_results_upto(rs, rs.len() as int));
                lemma_enc_results_upto_all(rs, i);
                assert(enc_results(rs, i) == enc_result(rs[i]) + enc_results(rs, i + 1));
                lemma_enc_results_len_nonneg(rs, i + 1);
                let off = enc_results_upto(rs, i).len() as int;
                let li = enc_result(rs[i]).len() as int;
                assert(fr == enc_results_upto(rs, i) + (enc_result(rs[i]) + enc_results(
                    rs,
                    i + 1,
                )));
                assert(forall|j: int|
                    0 <= j < li ==> fr[off + j] == #[trigger] enc_result(rs[i])[j]);
                assert(off + li <= rl);
                assert(buf.subrange(5 + off, 5 + off + li) =~= enc_result(rs[i])) by {
                    assert(forall|j: int|
                        0 <= j < li ==> buf[5 + off + j] == #[trigger] fr[off + j]);
                }
            }
        },
    }
}

proof fn lemma_enc_results_len_nonneg(rs: Seq<SearchResult>, i: int)
    ensures
        enc_results(rs, i).len() >= 0,
{
}

/// Decodes a response payload, with the same guarantees as
/// [`decode_request`]: whatever it accepts re-encodes to its input, and
/// every encodable response's payload is accepted.
#[verifier::rlimit(100)]
#[verifier::spinoff_prover]
pub fn decode_response(buf: &[u8]) -> (r: Option<Response>)
    ensures
        match r {
            Some(resp) => buf@ == spec_encode_response(resp),
            None => true,
        },
        forall|resp: Response|
            spec_response_sizes_ok(resp) && buf@ == #[trigger] spec_encode_response(resp)
                ==> r is Some,
{
    let (tag, p0) = match get_u8(buf, 0) {
        Some(x) => x,
        None => {
            proof {
                assert forall|resp: Response|
                    !(spec_response_sizes_ok(resp) && buf@ == #[trigger] spec_encode_response(
                        resp,
                    )) by {
                    if spec_response_sizes_ok(resp) && buf@ == spec_encode_response(resp) {
                        lemma_response_layout(buf@, resp);
                    }
                }
            }
            return None;
        },
    };
    proof {
        assert(seq![tag][0] == buf@.subrange(0, p0 as int)[0]);
        assert(buf@[0] == tag);
        lemma_auto_spec_u32_to_from_le_bytes();
    }
    if tag == 1 {
        let (build_id, p1) = match get_bytes(buf, p0) {
            Some(x) => x,
            None => {
                proof {
                    assert forall|resp: Response|
                        !(spec_response_sizes_ok(resp) && buf@ == #[trigger] spec_encode_response(
                            resp,
                        )) by {
                        if spec_response_sizes_ok(resp) && buf@ == spec_encode_response(resp) {
                            lemma_response_layout(buf@, resp);
                        }
                    }
                }
                return None;
            },
        };
        if p1 != buf.len() {
            proof {
                assert forall|resp: Response|
                    !(spec_response_sizes_ok(resp) && buf@ == #[trigger] spec_encode_response(
                        resp,
                    )) by {
                    if spec_response_sizes_ok(resp) && buf@ == spec_encode_response(resp) {
                        lemma_response_layout(buf@, resp);
                    match resp {
                            Response::Hello { build_id: b } => {
                                lemma_bytes_field_end(buf@, 1, b@, build_id@, p1 as int);
                            },
                            _ => {
                            },
                        }
                    }
                }
            }
            return None;
        }
        let resp = Response::Hello { build_id };
        proof {
            assert(buf@ =~= spec_encode_response(resp));
        }
        Some(resp)
    } else if tag == 2 {
        let (count, p1) = match get_u32(buf, p0) {
            Some(x) => x,
            None => {
                proof {
                    assert forall|resp: Response|
                        !(spec_response_sizes_ok(resp) && buf@ == #[trigger] spec_encode_response(
                            resp,
                        )) by {
                        if spec_response_sizes_ok(resp) && buf@ == spec_encode_response(resp) {
                            lemma_response_layout(buf@, resp);
                        }
                    }
                }
                return None;
            },
        };
        proof {
            assert forall|resp: Response|
                spec_response_sizes_ok(resp) && buf@ == #[trigger] spec_encode_response(resp)
                    implies (resp matches Response::Search { response: rp } && count as int
                    == rp.results@.len()) by {
                lemma_response_layout(buf@, resp);
            }
        }
        let mut results: Vec<SearchResult> = Vec::new();
        let mut pos = p1;
        let mut i: u32 = 0;
        while i < count
            invariant
                0 <= i <= count,
                results@.len() == i,
                p1 <= pos <= buf@.len(),
                p1 == 5,
                buf@[0] == 2,
                enc_results_upto(results@, i as int) == buf@.subrange(p1 as int, pos as int),
                forall|resp: Response|
                    spec_response_sizes_ok(resp) && buf@ == #[trigger] spec_encode_response(
                        resp,
                    ) ==> (resp matches Response::Search { response: rp } && count as int
                        == rp.results@.len() && i as int <= rp.results@.len() && pos as int
                        == 5 + enc_results_upto(rp.results@, i as int).len()),
            decreases count - i,
        {
            let ghost prev = results@;
            let ghost pos0 = pos;
            let (v, p2) = match get_result(buf, pos) {
                Some(x) => x,
                None => {
                    proof {
                        assert forall|resp: Response|
                            !(spec_response_sizes_ok(resp) && buf@
                                == #[trigger] spec_encode_response(resp)) by {
                            if spec_response_sizes_ok(resp) && buf@ == spec_encode_response(
                                resp,
                            ) {
                                lemma_response_layout(buf@, resp);
                                match resp {
                                    Response::Search { response: rp } => {
                                        assert(result_at(buf@, pos as int,
                                            rp.results@[i as int]));
                                    },
                                    _ => {
                                    },
                                }
                            }
                        }
                    }
                    return None;
                },
            };
            results.push(v);
            proof {
                assert(enc_results_upto(results@, i + 1) =~= enc_results_upto(prev, i as int)
                    + enc_result(v)) by {
                    assert(forall|t: int|
                        0 <= t < prev.len() ==> #[trigger] results@[t] == prev[t]);
                    lemma_enc_results_upto_frame(prev, results@, i as int);
                }
                assert(buf@.subrange(p1 as int, p2 as int) =~= buf@.subrange(
                    p1 as int,
                    pos0 as int,
                ) + buf@.subrange(pos0 as int, p2 as int));
                assert forall|resp: Response|
                    spec_response_sizes_ok(resp) && buf@ == #[trigger] spec_encode_response(
                        resp,
                    ) implies (resp matches Response::Search { response: rp } && count as int
                        == rp.results@.len() && i + 1 <= rp.results@.len() && p2 as int == 5
                        + enc_results_upto(rp.results@, i + 1).len()) by {
                    lemma_response_layout(buf@, resp);
                    match resp {
                        Response::Search { response: rp } => {
                            let rsq = rp.results@;
                            assert(result_at(buf@, pos as int, rsq[i as int]));
                            assert(p2 == pos + enc_result(rsq[i as int]).len());
                            assert(enc_results_upto(rsq, i + 1) == enc_results_upto(
                                rsq,
                                i as int,
                            ) + enc_result(rsq[i as int]));
                        },
                        _ => {
                        },
                    }
                }
            }
            pos = p2;
            i += 1;
        }
        proof {
            assert forall|resp: Response|
                spec_response_sizes_ok(resp) && buf@ == #[trigger] spec_encode_response(resp)
                    implies (resp matches Response::Search { response: rp } && pos as int == 5
                    + enc_results(rp.results@, 0).len()) by {
                lemma_response_layout(buf@, resp);
                match resp {
                    Response::Search { response: rp } => {
                        lemma_enc_results_upto_all(rp.results@, 0);
                        assert(enc_results_upto(rp.results@, 0) =~= Seq::<u8>::empty());
                        assert(Seq::<u8>::empty() + enc_results(rp.results@, 0)
                            =~= enc_results(rp.results@, 0));
                    },
                    _ => {
                    },
                }
            }
        }
        let (indexing, p3) = match get_bool(buf, pos) {
            Some(x) => x,
            None => {
                proof {
                    assert forall|resp: Response|
                        !(spec_response_sizes_ok(resp) && buf@ == #[trigger] spec_encode_response(
                            resp,
                        )) by {
                        if spec_response_sizes_ok(resp) && buf@ == spec_encode_response(resp) {
                            lemma_response_layout(buf@, resp);
                        }
                    }
                }
                return None;
            },
        };
        let (prog_tag, p4) = match get_u8(buf, p3) {
            Some(x) => x,
            None => {
                proof {
                    assert forall|resp: Response|
                        !(spec_response_sizes_ok(resp) && buf@ == #[trigger] spec_encode_response(
                            resp,
                        )) by {
                        if spec_response_sizes_ok(resp) && buf@ == spec_encode_response(resp) {
                            lemma_response_layout(buf@, resp);
                        }
                    }
                }
                return None;
            },
        };
        proof {
            assert(seq![prog_tag][0] == buf@.subrange(p3 as int, p4 as int)[0]);
            assert(buf@[p3 as int] == prog_tag);
        }
        let (progress, p5): (Option<u8>, usize) = if prog_tag == 1 {
            match get_u8(buf, p4) {
                Some((v, p)) => (Some(v), p),
                None => {
                    proof {
                    assert forall|resp: Response|
                        !(spec_response_sizes_ok(resp) && buf@ == #[trigger] spec_encode_response(
                            resp,
                        )) by {
                        if spec_response_sizes_ok(resp) && buf@ == spec_encode_response(resp) {
                            lemma_response_layout(buf@, resp);
                        }
                    }
                }
                    return None;
                },
            }
        } else if prog_tag == 0 {
            (None, p4)
        } else {
            proof {
                assert forall|resp: Response|
                    !(spec_response_sizes_ok(resp) && buf@ == #[trigger] spec_encode_response(
                        resp,
                    )) by {
                    if spec_response_sizes_ok(resp) && buf@ == spec_encode_response(resp) {
                        lemma_response_layout(buf@, resp);
                    }
                }
            }
            return None;
        };
        if p5 != buf.len() {
            proof {
                assert forall|resp: Response|
                    !(spec_response_sizes_ok(resp) && buf@ == #[trigger] spec_encode_response(
                        resp,
                    )) by {
                    if spec_response_sizes_ok(resp) && buf@ == spec_encode_response(resp) {
                        lemma_response_layout(buf@, resp);
                    }
                }
            }
            return None;
        }
        let status = if indexing {
            SearchStatus::Indexing
        } else {
            SearchStatus::Ready
        };
        let ghost rs = results@;
        let resp = Response::Search {
            response: SearchResponse { results, status, progress },
        };
        proof {
            lemma_enc_results_upto_all(rs, 0);
            assert(enc_results_upto(rs, 0) =~= Seq::<u8>::empty());
            assert(Seq::<u8>::empty() + enc_results(rs, 0) =~= enc_results(rs, 0));
            assert(enc_results(rs, 0) == enc_results_upto(rs, rs.len() as int));
            assert(rs.len() == count as int);
            assert(enc_results(rs, 0) == buf@.subrange(p1 as int, pos as int));
            assert(buf@.subrange(0, buf@.len() as int) =~= buf@.subrange(0, 1)
                + buf@.subrange(1, p1 as int) + buf@.subrange(p1 as int, pos as int)
                + buf@.subrange(pos as int, p3 as int) + buf@.subrange(
                p3 as int,
                p5 as int,
            ));
            assert(buf@.subrange(0, buf@.len() as int) =~= buf@);
            assert(buf@.subrange(p3 as int, p5 as int) =~= enc_option_u8(progress)) by {
                if prog_tag == 1 {
                    assert(buf@.subrange(p3 as int, p5 as int) =~= buf@.subrange(
                        p3 as int,
                        p4 as int,
                    ) + buf@.subrange(p4 as int, p5 as int));
                }
            }
            assert(buf@ =~= spec_encode_response(resp));
        }
        Some(resp)
    } else if tag == 3 {
        let (indexing, p1) = match get_bool(buf, p0) {
            Some(x) => x,
            None => {
                proof {
                    assert forall|resp: Response|
                        !(spec_response_sizes_ok(resp) && buf@ == #[trigger] spec_encode_response(
                            resp,
                        )) by {
                        if spec_response_sizes_ok(resp) && buf@ == spec_encode_response(resp) {
                            lemma_response_layout(buf@, resp);
                        }
                    }
                }
                return None;
            },
        };
        let (progress, p2) = match get_u8(buf, p1) {
            Some(x) => x,
            None => {
                proof {
                    assert forall|resp: Response|
                        !(spec_response_sizes_ok(resp) && buf@ == #[trigger] spec_encode_response(
                            resp,
                        )) by {
                        if spec_response_sizes_ok(resp) && buf@ == spec_encode_response(resp) {
                            lemma_response_layout(buf@, resp);
                        }
                    }
                }
                return None;
            },
        };
        let (files, p3) = match get_u32(buf, p2) {
            Some(x) => x,
            None => {
                proof {
                    assert forall|resp: Response|
                        !(spec_response_sizes_ok(resp) && buf@ == #[trigger] spec_encode_response(
                            resp,
                        )) by {
                        if spec_response_sizes_ok(resp) && buf@ == spec_encode_response(resp) {
                            lemma_response_layout(buf@, resp);
                        }
                    }
                }
                return None;
            },
        };
        if p3 != buf.len() {
            proof {
                assert forall|resp: Response|
                    !(spec_response_sizes_ok(resp) && buf@ == #[trigger] spec_encode_response(
                        resp,
                    )) by {
                    if spec_response_sizes_ok(resp) && buf@ == spec_encode_response(resp) {
                        lemma_response_layout(buf@, resp);
                    }
                }
            }
            return None;
        }
        let resp = Response::Health { status: ServerStatus { indexing, progress, files } };
        proof {
            assert(buf@ =~= spec_encode_response(resp));
        }
        Some(resp)
    } else if tag == 4 {
        let (message, p1) = match get_bytes(buf, p0) {
            Some(x) => x,
            None => {
                proof {
                    assert forall|resp: Response|
                        !(spec_response_sizes_ok(resp) && buf@ == #[trigger] spec_encode_response(
                            resp,
                        )) by {
                        if spec_response_sizes_ok(resp) && buf@ == spec_encode_response(resp) {
                            lemma_response_layout(buf@, resp);
                        }
                    }
                }
                return None;
            },
        };
        if p1 != buf.len() {
            proof {
                assert forall|resp: Response|
                    !(spec_response_sizes_ok(resp) && buf@ == #[trigger] spec_encode_response(
                        resp,
                    )) by {
                    if spec_response_sizes_ok(resp) && buf@ == spec_encode_response(resp) {
                        lemma_response_layout(buf@, resp);
                    match resp {
                            Response::Error { message: m } => {
                                lemma_bytes_field_end(buf@, 1, m@, message@, p1 as int);
                            },
                            _ => {
                            },
                        }
                    }
                }
            }
            return None;
        }
        let resp = Response::Error { message };
        proof {
            assert(buf@ =~= spec_encode_response(resp));
        }
        Some(resp)
    } else if tag == 5 {
        let (success, p1) = match get_bool(buf, p0) {
            Some(x) => x,
            None => {
                proof {
                    assert forall|resp: Response|
                        !(spec_response_sizes_ok(resp) && buf@ == #[trigger] spec_encode_response(
                            resp,
                        )) by {
                        if spec_response_sizes_ok(resp) && buf@ == spec_encode_response(resp) {
                            lemma_response_layout(buf@, resp);
                        }
                    }
                }
                return None;
            },
        };
        if p1 != buf.len() {
            proof {
                assert forall|resp: Response|
                    !(spec_response_sizes_ok(resp) && buf@ == #[trigger] spec_encode_response(
                        resp,
                    )) by {
                    if spec_response_sizes_ok(resp) && buf@ == spec_encode_response(resp) {
                        lemma_response_layout(buf@, resp);
                    }
                }
            }
            return None;
        }
        let resp = Response::Shutdown { success };
        proof {
            assert(buf@ =~= spec_encode_response(resp));
        }
        Some(resp)
    } else {
        proof {
                assert forall|resp: Response|
                    !(spec_response_sizes_ok(resp) && buf@ == #[trigger] spec_encode_response(
                        resp,
                    )) by {
                    if spec_response_sizes_ok(resp) && buf@ == spec_encode_response(resp) {
                        lemma_response_layout(buf@, resp);
                    }
                }
            }
        None
    }
}

/// Result-list encodings only read the listed results.
proof fn lemma_enc_results_upto_frame(s1: Seq<SearchResult>, s2: Seq<SearchResult>, i: int)
    requires
        forall|t: int| 0 <= t < i ==> s1[t] == s2[t],
        i <= s1.len(),
    ensures
        enc_results_upto(s1, i) == enc_results_upto(s2, i),
    decreases i,
{
    if i > 0 {
        lemma_enc_results_upto_frame(s1, s2, i - 1);
    }
}

} // verus!
