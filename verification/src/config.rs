use vstd::prelude::*;

verus! {

/// Configuration of the pipeline: how many samples to draw, how many bytes of
/// each hash to keep, how many characters each sample has, and how many
/// occurrences a digest value must strictly exceed to be reported.
pub struct Config {
    pub batch_size: usize,
    pub digest_bytes: usize,
    pub sample_length: usize,
    pub collision_threshold: usize,
}

impl Config {
    /// A configuration is usable when the kept prefix does not exceed the
    /// 32 bytes that a SHA-256 digest has.
    pub open spec fn wf(self) -> bool {
        self.digest_bytes <= 32
    }
}

impl Default for Config {
    fn default() -> (c: Config)
        ensures
            c.batch_size == 10000,
            c.digest_bytes == 2,
            c.sample_length == 10,
            c.collision_threshold == 3,
            c.wf(),
    {
        Config { batch_size: 10000, digest_bytes: 2, sample_length: 10, collision_threshold: 3 }
    }
}

} // verus!
