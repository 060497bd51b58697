//! Tunables of the daemon and its pipeline. Loading the configuration file
//! and the environment overrides happens in the shell; the library holds
//! the values, their defaults, and the derived sizes.

use vstd::prelude::*;
use crate::embed::spec_pool_size;

verus! {

/// The default dense embedding model identifier.
pub open spec fn spec_default_dense_model() -> Seq<u8> {
    seq![105u8, 98u8, 109u8, 45u8, 103u8, 114u8, 97u8, 110u8, 105u8, 116u8, 101u8, 47u8, 103u8, 114u8, 97u8, 110u8, 105u8, 116u8, 101u8, 45u8, 101u8, 109u8, 98u8, 101u8, 100u8, 100u8, 105u8, 110u8, 103u8, 45u8, 115u8, 109u8, 97u8, 108u8, 108u8, 45u8, 101u8, 110u8, 103u8, 108u8, 105u8, 115u8, 104u8, 45u8, 114u8, 50u8]
}

/// The default late-interaction model identifier.
pub open spec fn spec_default_colbert_model() -> Seq<u8> {
    seq![97u8, 110u8, 115u8, 119u8, 101u8, 114u8, 100u8, 111u8, 116u8, 97u8, 105u8, 47u8, 97u8, 110u8, 115u8, 119u8, 101u8, 114u8, 97u8, 105u8, 45u8, 99u8, 111u8, 108u8, 98u8, 101u8, 114u8, 116u8, 45u8, 115u8, 109u8, 97u8, 108u8, 108u8, 45u8, 118u8, 49u8]
}

fn default_dense_model() -> (r: Vec<u8>)
    ensures
        r@ == spec_default_dense_model(),
{
    let mut v: Vec<u8> = Vec::new();
    v.push(105);
    v.push(98);
    v.push(109);
    v.push(45);
    v.push(103);
    v.push(114);
    v.push(97);
    v.push(110);
    v.push(105);
    v.push(116);
    v.push(101);
    v.push(47);
    v.push(103);
    v.push(114);
    v.push(97);
    v.push(110);
    v.push(105);
    v.push(116);
    v.push(101);
    v.push(45);
    v.push(101);
    v.push(109);
    v.push(98);
    v.push(101);
    v.push(100);
    v.push(100);
    v.push(105);
    v.push(110);
    v.push(103);
    v.push(45);
    v.push(115);
    v.push(109);
    v.push(97);
    v.push(108);
    v.push(108);
    v.push(45);
    v.push(101);
    v.push(110);
    v.push(103);
    v.push(108);
    v.push(105);
    v.push(115);
    v.push(104);
    v.push(45);
    v.push(114);
    v.push(50);
    proof {
        assert(v@ =~= spec_default_dense_model());
    }
    v
}

fn default_colbert_model() -> (r: Vec<u8>)
    ensures
        r@ == spec_default_colbert_model(),
{
    let mut v: Vec<u8> = Vec::new();
    v.push(97);
    v.push(110);
    v.push(115);
    v.push(119);
    v.push(101);
    v.push(114);
    v.push(100);
    v.push(111);
    v.push(116);
    v.push(97);
    v.push(105);
    v.push(47);
    v.push(97);
    v.push(110);
    v.push(115);
    v.push(119);
    v.push(101);
    v.push(114);
    v.push(97);
    v.push(105);
    v.push(45);
    v.push(99);
    v.push(111);
    v.push(108);
    v.push(98);
    v.push(101);
    v.push(114);
    v.push(116);
    v.push(45);
    v.push(115);
    v.push(109);
    v.push(97);
    v.push(108);
    v.push(108);
    v.push(45);
    v.push(118);
    v.push(49);
    proof {
        assert(v@ =~= spec_default_colbert_model());
    }
    v
}

/// Application configuration. The model identifier strings are carried for
/// the embedding backend and never interpreted here.
pub struct Config {
    pub dense_model: Vec<u8>,
    pub colbert_model: Vec<u8>,
    pub dense_dim: usize,
    pub colbert_dim: usize,
    pub query_prefix: Vec<u8>,
    pub dense_max_length: usize,
    pub colbert_max_length: usize,
    pub default_batch_size: usize,
    pub max_batch_size: usize,
    pub max_threads: usize,
    pub port: u16,
    pub idle_timeout_secs: u64,
    pub idle_check_interval_secs: u64,
    pub worker_timeout_ms: u64,
    pub low_impact: bool,
    pub disable_gpu: bool,
    pub fast_mode: bool,
    pub profile_enabled: bool,
    pub skip_meta_save: bool,
    pub debug_models: bool,
    pub debug_embed: bool,
}

impl Default for Config {
    /// The built-in defaults: 384-wide dense embeddings, 96-wide token
    /// embeddings, batches of 48 capped at 96, a half-hour idle timeout
    /// checked every minute, and a one-minute worker timeout.
    fn default() -> (r: Config)
        ensures
            r.dense_dim == 384,
            r.colbert_dim == 96,
            r.dense_max_length == 256,
            r.colbert_max_length == 256,
            r.default_batch_size == 48,
            r.max_batch_size == 96,
            r.max_threads == 32,
            r.port == 4444,
            r.idle_timeout_secs == 1800,
            r.idle_check_interval_secs == 60,
            r.worker_timeout_ms == 60000,
            !r.low_impact && !r.disable_gpu && !r.fast_mode && !r.profile_enabled
                && !r.skip_meta_save && !r.debug_models && !r.debug_embed,
            r.dense_model@ == spec_default_dense_model(),
            r.colbert_model@ == spec_default_colbert_model(),
            r.query_prefix@.len() == 0,
    {
        Config {
            dense_model: default_dense_model(),
            colbert_model: default_colbert_model(),
            dense_dim: 384,
            colbert_dim: 96,
            query_prefix: Vec::new(),
            dense_max_length: 256,
            colbert_max_length: 256,
            default_batch_size: 48,
            max_batch_size: 96,
            max_threads: 32,
            port: 4444,
            idle_timeout_secs: 1800,
            idle_check_interval_secs: 60,
            worker_timeout_ms: 60000,
            low_impact: false,
            disable_gpu: false,
            fast_mode: false,
            profile_enabled: false,
            skip_meta_save: false,
            debug_models: false,
            debug_embed: false,
        }
    }
}

impl Config {
    /// The configured batch size, capped at the maximum.
    pub fn batch_size(&self) -> (r: usize)
        ensures
            r == if self.default_batch_size <= self.max_batch_size {
                self.default_batch_size as int
            } else {
                self.max_batch_size as int
            },
    {
        if self.default_batch_size <= self.max_batch_size {
            self.default_batch_size
        } else {
            self.max_batch_size
        }
    }

    /// The worker-pool size for `cpus` processors: the cpu count less four,
    /// clamped to `[1, max_threads]`.
    pub fn pool_size(&self, cpus: usize) -> (r: usize)
        requires
            self.max_threads >= 1,
        ensures
            r as int == spec_pool_size(cpus as int, self.max_threads as int),
            1 <= r <= self.max_threads,
    {
        let base: usize = if cpus >= 4 {
            cpus - 4
        } else {
            0
        };
        if base < 1 {
            1
        } else if base > self.max_threads {
            self.max_threads
        } else {
            base
        }
    }

    /// The worker-pool size on this machine.
    pub fn default_threads(&self) -> (r: usize)
        requires
            self.max_threads >= 1,
        ensures
            1 <= r <= self.max_threads,
    {
        let cpus = cpu_count();
        self.pool_size(cpus)
    }
}

/// Relies on num_cpus::get: the number of available logical processors,
/// documented to always be at least one. Which number comes back depends on
/// the machine, so no more is assumed.
#[verifier::external_body]
fn cpu_count() -> (r: usize)
    ensures
        r >= 1,
{
    num_cpus::get()
}

} // verus!
