use vstd::prelude::*;

verus! {

/// How a record's leading timestamp is found in a line: the bytes
/// `[start_pos, start_pos + len)` are read as text in the layout `fmt`.
pub struct EventTimeConfig {
    pub start_pos: u64,
    pub len: u64,
    pub fmt: String,
}

/// Settings of the tailer: the glob pattern of the files to follow, the pause
/// in seconds between two scans, and the timestamp rule.
pub struct Config {
    pub path: String,
    pub interval: u32,
    pub event_time: EventTimeConfig,
}

/// The pause between two scans when the settings name none.
pub fn default_interval() -> (r: u32)
    ensures
        r == 10,
{
    10
}

} // verus!
