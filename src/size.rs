//! The size model: what one filesystem entry contributes under each
//! accounting unit.
use vstd::prelude::*;

verus! {

/// The largest block count whose byte size (`blocks * 512`) fits in a `u64`.
pub const MAX_BLOCKS: u64 = 36028797018963967;

/// Raw `stat` attributes of one entry: apparent size in bytes and the number
/// of 512-byte blocks allocated to it.
#[derive(Clone, Copy, Debug, PartialEq, Eq, Structural)]
pub struct FileStats {
    pub size: u64,
    pub blocks: u64,
}

/// Storage actually allocated, in bytes.
pub open spec fn disk_bytes(st: FileStats) -> int {
    st.blocks * 512
}

impl FileStats {
    /// A stat result whose allocated size can be expressed in bytes.
    pub open spec fn wf(&self) -> bool {
        self.blocks <= MAX_BLOCKS
    }

    pub fn new(size: u64, blocks: u64) -> (r: FileStats)
        ensures
            r.size == size,
            r.blocks == blocks,
    {
        FileStats { size, blocks }
    }

    pub fn size_in_bytes(&self) -> (r: u64)
        ensures
            r == self.size,
    {
        self.size
    }

    pub fn disk_usage_bytes(&self) -> (r: u64)
        requires
            self.wf(),
        ensures
            r == disk_bytes(*self),
    {
        self.blocks * 512
    }

    /// Allocated storage in 1K units, rounded down.
    pub fn disk_usage_blocks(&self) -> (r: u64)
        requires
            self.wf(),
        ensures
            r == disk_bytes(*self) / 1024,
    {
        (self.blocks * 512) / 1024
    }
}

/// The accounting unit, chosen once per run.
#[derive(Clone, Copy, Debug, PartialEq, Eq, Structural)]
pub enum SizeFormat {
    /// Apparent size; directories contribute nothing themselves.
    Bytes,
    /// Allocated bytes.
    HumanReadable,
    /// Allocated 1K blocks.
    Blocks,
}

impl SizeFormat {
    pub open spec fn dir_size_spec(self, st: FileStats) -> int {
        match self {
            SizeFormat::Bytes => 0,
            SizeFormat::HumanReadable => disk_bytes(st),
            SizeFormat::Blocks => disk_bytes(st) / 1024,
        }
    }

    pub open spec fn file_size_spec(self, st: FileStats) -> int {
        match self {
            SizeFormat::Bytes => st.size as int,
            SizeFormat::HumanReadable => disk_bytes(st),
            SizeFormat::Blocks => disk_bytes(st) / 1024,
        }
    }

    /// What a directory node contributes by itself.
    pub fn get_dir_size(&self, stats: &FileStats) -> (r: u64)
        requires
            stats.wf(),
        ensures
            r == self.dir_size_spec(*stats),
    {
        match self {
            SizeFormat::Bytes => 0,
            SizeFormat::HumanReadable => stats.disk_usage_bytes(),
            SizeFormat::Blocks => stats.disk_usage_blocks(),
        }
    }

    /// What a non-directory entry contributes.
    pub fn get_file_size(&self, stats: &FileStats) -> (r: u64)
        requires
            stats.wf(),
        ensures
            r == self.file_size_spec(*stats),
    {
        match self {
            SizeFormat::Bytes => stats.size_in_bytes(),
            SizeFormat::HumanReadable => stats.disk_usage_bytes(),
            SizeFormat::Blocks => stats.disk_usage_blocks(),
        }
    }
}

} // verus!
