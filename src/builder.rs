//! Options of a store.

use vstd::prelude::*;
use std::time::Duration;

verus! {

/// Default log suffix.
pub const DEFAULT_LOG_SUFFIX: &'static str = "log";

/// Default data suffix.
pub const DEFAULT_DATA_SUFFIX: &'static str = "data";

/// Default threshold on the active memtable's size, in bytes.
pub const DEFAULT_SWITCH_MEM_SIZE: usize = 1048576;

/// Default merge period in seconds.
pub const DEFAULT_MERGE_PERIOD_SECS: u64 = 3600;

/// Default poll period in milliseconds.
pub const DEFAULT_POLL_PERIOD_MILLIS: u64 = 100;

/// Default minimum number of bytes between two entries of a segment index.
pub const DEFAULT_BLOCK_SIZE: u64 = 4096;

/// The duration of `secs` whole seconds.
pub uninterp spec fn duration_from_secs(secs: u64) -> Duration;

/// The duration of `millis` milliseconds.
pub uninterp spec fn duration_from_millis(millis: u64) -> Duration;

/// Relies on `Duration::from_secs`: the duration of that many seconds, a
/// function of the argument alone; it never panics.
pub assume_specification[ core::time::Duration::from_secs ](secs: u64) -> (r: Duration)
    ensures
        r == duration_from_secs(secs),
;

/// Relies on `Duration::from_millis`: the duration of that many
/// milliseconds, a function of the argument alone; it never panics.
pub assume_specification[ core::time::Duration::from_millis ](millis: u64) -> (r: Duration)
    ensures
        r == duration_from_millis(millis),
;

/// The options with which a store is opened.
#[derive(Debug)]
pub struct DatabaseBuilder {
    log_suffix: String,
    data_suffix: String,
    switch_mem_size: usize,
    merge_period: Duration,
    poll_period: Duration,
    block_size: u64,
}

impl DatabaseBuilder {
    /// Suffix of the log files.
    pub closed spec fn spec_log_suffix(&self) -> Seq<char> {
        self.log_suffix@
    }

    /// Suffix of the segment files.
    pub closed spec fn spec_data_suffix(&self) -> Seq<char> {
        self.data_suffix@
    }

    /// Threshold on the active memtable's size.
    pub closed spec fn spec_switch_mem_size(&self) -> usize {
        self.switch_mem_size
    }

    /// Minimum interval between two compactions.
    pub closed spec fn spec_merge_period(&self) -> Duration {
        self.merge_period
    }

    /// Tick interval of the background workers.
    pub closed spec fn spec_poll_period(&self) -> Duration {
        self.poll_period
    }

    /// Minimum number of bytes between two entries of a segment index.
    pub closed spec fn spec_block_size(&self) -> u64 {
        self.block_size
    }

    /// Set log suffix.
    pub fn log_suffix(&mut self, suffix: &str) -> (r: &mut Self)
        ensures
            r.spec_log_suffix() == suffix@,
            r.spec_data_suffix() == old(self).spec_data_suffix(),
            r.spec_switch_mem_size() == old(self).spec_switch_mem_size(),
            r.spec_merge_period() == old(self).spec_merge_period(),
            r.spec_poll_period() == old(self).spec_poll_period(),
            r.spec_block_size() == old(self).spec_block_size(),
            *final(self) == *final(r),
    {
        self.log_suffix = suffix.to_owned();
        self
    }

    /// Set data suffix.
    pub fn data_suffix(&mut self, suffix: &str) -> (r: &mut Self)
        ensures
            r.spec_log_suffix() == old(self).spec_log_suffix(),
            r.spec_data_suffix() == suffix@,
            r.spec_switch_mem_size() == old(self).spec_switch_mem_size(),
            r.spec_merge_period() == old(self).spec_merge_period(),
            r.spec_poll_period() == old(self).spec_poll_period(),
            r.spec_block_size() == old(self).spec_block_size(),
            *final(self) == *final(r),
    {
        self.data_suffix = suffix.to_owned();
        self
    }

    /// Set the threshold on the active memtable's size.
    pub fn switch_mem_size(&mut self, size: usize) -> (r: &mut Self)
        ensures
            r.spec_log_suffix() == old(self).spec_log_suffix(),
            r.spec_data_suffix() == old(self).spec_data_suffix(),
            r.spec_switch_mem_size() == size,
            r.spec_merge_period() == old(self).spec_merge_period(),
            r.spec_poll_period() == old(self).spec_poll_period(),
            r.spec_block_size() == old(self).spec_block_size(),
            *final(self) == *final(r),
    {
        self.switch_mem_size = size;
        self
    }

    /// Set merge period.
    pub fn merge_period(&mut self, duration: Duration) -> (r: &mut Self)
        ensures
            r.spec_log_suffix() == old(self).spec_log_suffix(),
            r.spec_data_suffix() == old(self).spec_data_suffix(),
            r.spec_switch_mem_size() == old(self).spec_switch_mem_size(),
            r.spec_merge_period() == duration,
            r.spec_poll_period() == old(self).spec_poll_period(),
            r.spec_block_size() == old(self).spec_block_size(),
            *final(self) == *final(r),
    {
        self.merge_period = duration;
        self
    }

    /// Set poll period.
    pub fn poll_period(&mut self, duration: Duration) -> (r: &mut Self)
        ensures
            r.spec_log_suffix() == old(self).spec_log_suffix(),
            r.spec_data_suffix() == old(self).spec_data_suffix(),
            r.spec_switch_mem_size() == old(self).spec_switch_mem_size(),
            r.spec_merge_period() == old(self).spec_merge_period(),
            r.spec_poll_period() == duration,
            r.spec_block_size() == old(self).spec_block_size(),
            *final(self) == *final(r),
    {
        self.poll_period = duration;
        self
    }

    /// Set the minimum number of bytes between two entries of a segment index.
    pub fn block_size(&mut self, size: u64) -> (r: &mut Self)
        ensures
            r.spec_log_suffix() == old(self).spec_log_suffix(),
            r.spec_data_suffix() == old(self).spec_data_suffix(),
            r.spec_switch_mem_size() == old(self).spec_switch_mem_size(),
            r.spec_merge_period() == old(self).spec_merge_period(),
            r.spec_poll_period() == old(self).spec_poll_period(),
            r.spec_block_size() == size,
            *final(self) == *final(r),
    {
        self.block_size = size;
        self
    }

    /// Suffix of the log files.
    pub fn get_log_suffix(&self) -> (r: &str)
        ensures
            r@ == self.spec_log_suffix(),
    {
        self.log_suffix.as_str()
    }

    /// Suffix of the segment files.
    pub fn get_data_suffix(&self) -> (r: &str)
        ensures
            r@ == self.spec_data_suffix(),
    {
        self.data_suffix.as_str()
    }

    /// Threshold on the active memtable's size.
    pub fn get_switch_mem_size(&self) -> (r: usize)
        ensures
            r == self.spec_switch_mem_size(),
    {
        self.switch_mem_size
    }

    /// Minimum interval between two compactions.
    pub fn get_merge_period(&self) -> (r: Duration)
        ensures
            r == self.spec_merge_period(),
    {
        self.merge_period
    }

    /// Tick interval of the background workers.
    pub fn get_poll_period(&self) -> (r: Duration)
        ensures
            r == self.spec_poll_period(),
    {
        self.poll_period
    }

    /// Minimum number of bytes between two entries of a segment index.
    pub fn get_block_size(&self) -> (r: u64)
        ensures
            r == self.spec_block_size(),
    {
        self.block_size
    }
}

impl Default for DatabaseBuilder {
    fn default() -> (r: Self)
        ensures
            r.spec_log_suffix() == DEFAULT_LOG_SUFFIX@,
            r.spec_data_suffix() == DEFAULT_DATA_SUFFIX@,
            r.spec_switch_mem_size() == DEFAULT_SWITCH_MEM_SIZE,
            r.spec_merge_period() == duration_from_secs(DEFAULT_MERGE_PERIOD_SECS),
            r.spec_poll_period() == duration_from_millis(DEFAULT_POLL_PERIOD_MILLIS),
            r.spec_block_size() == DEFAULT_BLOCK_SIZE,
    {
        DatabaseBuilder {
            log_suffix: DEFAULT_LOG_SUFFIX.to_owned(),
            data_suffix: DEFAULT_DATA_SUFFIX.to_owned(),
            switch_mem_size: DEFAULT_SWITCH_MEM_SIZE,
            merge_period: Duration::from_secs(DEFAULT_MERGE_PERIOD_SECS),
            poll_period: Duration::from_millis(DEFAULT_POLL_PERIOD_MILLIS),
            block_size: DEFAULT_BLOCK_SIZE,
        }
    }
}

} // verus!
