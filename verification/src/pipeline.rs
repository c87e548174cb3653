use vstd::prelude::*;

use crate::config::Config;
use crate::counter::{
    count_collisions, filter_collisions, filtered_pairs, record_views, records_of, views_of,
    Collision,
};
use crate::digest::digest_batch;
use crate::sampler::sample_batch;

verus! {

/// A digest collection that a run of the pipeline can produce: one digest per
/// sample, each of the configured truncated length.
pub open spec fn valid_digests(ds: Seq<Seq<u8>>, n: nat, d: nat) -> bool {
    &&& ds.len() == n
    &&& forall|i: int| 0 <= i < ds.len() ==> (#[trigger] ds[i]).len() == d
}

/// The whole pipeline: sample, hash and truncate, count, filter. The samples
/// are random, so the digests themselves cannot be predicted; what holds of
/// every outcome is that the report is the filtered collision count of some
/// digest collection of the configured batch size and digest length.
pub fn run(cfg: &Config) -> (report: Vec<Collision>)
    requires
        cfg.wf(),
    ensures
        exists|ds: Seq<Seq<u8>>|
            #[trigger] valid_digests(ds, cfg.batch_size as nat, cfg.digest_bytes as nat)
                && record_views(report@) == filtered_pairs(
                records_of(ds),
                cfg.collision_threshold as nat,
            ),
{
    let samples = sample_batch(cfg.batch_size, cfg.sample_length);
    let digests = digest_batch(&samples, cfg.digest_bytes);
    let records = count_collisions(&digests);
    let report = filter_collisions(&records, cfg.collision_threshold);
    proof {
        let ds = views_of(digests@);
        assert(ds.len() == cfg.batch_size);
        assert forall|i: int| 0 <= i < ds.len() implies (#[trigger] ds[i]).len()
            == cfg.digest_bytes by {
            assert(ds[i] == digests@[i]@);
        }
        assert(valid_digests(ds, cfg.batch_size as nat, cfg.digest_bytes as nat));
    }
    report
}

} // verus!
