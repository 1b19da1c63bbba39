use vstd::prelude::*;

verus! {

/// Sizing configuration for a log and its segments.
#[derive(Clone, Copy, Debug, PartialEq, Eq, Structural)]
pub struct Config {
    /// Cap on a segment's store bytes; a zero here is normalised to 1024.
    pub max_store_bytes: u64,
    /// Cap on a segment's index bytes; a zero here is normalised to 1024.
    pub max_index_bytes: u64,
    /// Base offset of the first segment of a log opened on an empty directory.
    pub initial_offset: u64,
}

/// A configuration this machine can honour: the index is pre-sized to
/// `max_index_bytes`, so that many bytes must be addressable, and a
/// segment must hold fewer than 2^32 records, which caps the index at
/// 12 bytes for each of at most 2^32 - 1 entries.
pub open spec fn valid_config(c: Config) -> bool {
    &&& c.max_index_bytes <= usize::MAX
    &&& c.max_index_bytes <= 12 * 0xffff_ffffu64
}

/// `Config` with both byte caps normalised: a zero becomes 1024.
pub open spec fn normalized(c: Config) -> Config {
    Config {
        max_store_bytes: if c.max_store_bytes == 0 {
            1024u64
        } else {
            c.max_store_bytes
        },
        max_index_bytes: if c.max_index_bytes == 0 {
            1024u64
        } else {
            c.max_index_bytes
        },
        initial_offset: c.initial_offset,
    }
}

impl Default for Config {
    /// All-zero configuration; the log normalises the byte caps on open.
    fn default() -> (r: Config)
        ensures
            r.max_store_bytes == 0,
            r.max_index_bytes == 0,
            r.initial_offset == 0,
    {
        Config { max_store_bytes: 0, max_index_bytes: 0, initial_offset: 0 }
    }
}

} // verus!
