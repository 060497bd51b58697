//! The embedder boundary. Inference happens outside the library; what is
//! verified here is the shape of the exchange: embeddings as opaque payload
//! bytes, and the batch plan that splits work into bounded sub-batches whose
//! reassembly, in submission order, is the identity.

use vstd::prelude::*;

verus! {

/// One chunk's embeddings: a fixed-length dense vector and a variable-length
/// token matrix, both opaque quantized bytes, plus the bit pattern of the
/// quantization scale.
pub struct HybridEmbedding {
    pub dense: Vec<u8>,
    pub colbert: Vec<u8>,
    pub colbert_scale_bits: u32,
}

/// A query's embeddings.
pub struct QueryEmbedding {
    pub dense: Vec<u8>,
    pub colbert: Vec<u8>,
}

/// The sub-batch spans of a batch of `n` items at batch size `size`:
/// half-open index ranges, in order, contiguous, each at most `size` wide.
pub open spec fn spec_batch_spans(n: int, size: int) -> Seq<(int, int)>
    decreases n,
    when size >= 1 && n >= 0
{
    if n <= 0 {
        Seq::empty()
    } else if n <= size {
        seq![(0int, n)]
    } else {
        seq![(0int, size)] + spec_batch_spans(n - size, size).map_values(
            |sp: (int, int)| (sp.0 + size, sp.1 + size),
        )
    }
}

/// Splits `n` work items into spans of at most `size`, in order: the plan
/// the worker pool dispatches, one span per work item, reassembled in
/// submission order.
pub fn batch_spans(n: usize, size: usize) -> (r: Vec<(usize, usize)>)
    requires
        size >= 1,
    ensures
        r@.map_values(|sp: (usize, usize)| (sp.0 as int, sp.1 as int)) == spec_batch_spans(
            n as int,
            size as int,
        ),
        r@.len() > 0 ==> r@[0].0 == 0 && r@[r@.len() - 1].1 == n,
        n == 0 ==> r@.len() == 0,
        forall|i: int|
            0 <= i < r@.len() ==> {
                let sp = #[trigger] r@[i];
                sp.0 < sp.1 && sp.1 - sp.0 <= size && sp.1 <= n
            },
        forall|i: int| 0 < i < r@.len() ==> (#[trigger] r@[i]).0 == r@[i - 1].1,
{
    let mut out: Vec<(usize, usize)> = Vec::new();
    let mut start: usize = 0;
    while start < n
        invariant
            size >= 1,
            0 <= start <= n,
            start < n || start == n,
            out@.map_values(|sp: (usize, usize)| (sp.0 as int, sp.1 as int)) + spec_batch_spans(
                n - start,
                size as int,
            ).map_values(|sp: (int, int)| (sp.0 + start, sp.1 + start)) == spec_batch_spans(
                n as int,
                size as int,
            ),
            forall|i: int|
                0 <= i < out@.len() ==> {
                    let sp = #[trigger] out@[i];
                    sp.0 < sp.1 && sp.1 - sp.0 <= size && sp.1 <= n
                },
            forall|i: int| 0 < i < out@.len() ==> (#[trigger] out@[i]).0 == out@[i - 1].1,
            out@.len() > 0 ==> out@[0].0 == 0 && out@[out@.len() - 1].1 == start,
            out@.len() == 0 ==> start == 0,
        decreases n - start,
    {
        let end: usize = if n - start <= size {
            n
        } else {
            start + size
        };
        let ghost prev = out@;
        out.push((start, end));
        proof {
            let m = n - start;
            let rest = spec_batch_spans(n - end, size as int);
            assert(spec_batch_spans(m as int, size as int) == seq![
                (0int, (end - start) as int),
            ] + rest.map_values(|sp: (int, int)| (sp.0 + (end - start), sp.1 + (end
                - start))));
            assert(out@.map_values(|sp: (usize, usize)| (sp.0 as int, sp.1 as int))
                =~= prev.map_values(|sp: (usize, usize)| (sp.0 as int, sp.1 as int)).push(
                (start as int, end as int),
            ));
            assert(spec_batch_spans(m as int, size as int).map_values(
                |sp: (int, int)| (sp.0 + start, sp.1 + start),
            ) =~= seq![(start as int, end as int)] + rest.map_values(
                |sp: (int, int)| (sp.0 + end, sp.1 + end),
            ));
            assert(out@.map_values(|sp: (usize, usize)| (sp.0 as int, sp.1 as int))
                + spec_batch_spans(n - end, size as int).map_values(
                |sp: (int, int)| (sp.0 + end, sp.1 + end),
            ) =~= spec_batch_spans(n as int, size as int));
        }
        start = end;
    }
    proof {
        assert(spec_batch_spans(0, size as int).map_values(
            |sp: (int, int)| (sp.0 + start, sp.1 + start),
        ) =~= Seq::<(int, int)>::empty());
        assert(out@.map_values(|sp: (usize, usize)| (sp.0 as int, sp.1 as int))
            + Seq::<(int, int)>::empty() =~= out@.map_values(
            |sp: (usize, usize)| (sp.0 as int, sp.1 as int),
        ));
    }
    out
}

/// The worker-pool size: the cpu count less four, clamped to `[1,
/// max_threads]`.
pub open spec fn spec_pool_size(cpus: int, max_threads: int) -> int {
    let base = if cpus >= 4 {
        cpus - 4
    } else {
        0
    };
    if base < 1 {
        1
    } else if base > max_threads {
        max_threads
    } else {
        base
    }
}

/// The bound of the pool's work queue: twice the pool size.
pub fn queue_capacity(pool_size: usize) -> (r: usize)
    requires
        pool_size <= 0x7fff_ffff,
    ensures
        r == 2 * pool_size,
{
    2 * pool_size
}

} // verus!
