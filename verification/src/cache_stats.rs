//! Counters of cache activity.

use vstd::prelude::*;

verus! {

/// Cache activity since the previous sample.
#[derive(Clone, Copy, Debug, PartialEq, Eq, Structural)]
pub struct CacheStats {
    /// Reads served from decoded knowledge.
    pub l1_hits: u64,
    /// Reads that decoded knowledge could not serve.
    pub l1_misses: u64,
    /// Lookups that the persistent cache served.
    pub l2_hits: u64,
    /// Lookups that the persistent cache could not serve.
    pub l2_misses: u64,
    /// Bytes read from the persistent cache.
    pub l2_bytes_read: u64,
    /// Bytes written to the persistent cache.
    pub l2_bytes_written: u64,
    /// Persisted bodies checked against the backend.
    pub l2_conditional_validations: u64,
    /// Failures of the persistent cache.
    pub l2_errors: u64,
}

/// No activity.
pub open spec fn no_activity() -> CacheStats {
    CacheStats {
        l1_hits: 0,
        l1_misses: 0,
        l2_hits: 0,
        l2_misses: 0,
        l2_bytes_read: 0,
        l2_bytes_written: 0,
        l2_conditional_validations: 0,
        l2_errors: 0,
    }
}

/// The difference, or zero.
pub open spec fn drop_to_zero(x: int) -> u64 {
    if x < 0 {
        0
    } else {
        x as u64
    }
}

impl Default for CacheStats {
    /// No activity.
    fn default() -> (r: Self)
        ensures
            r == no_activity(),
    {
        CacheStats {
            l1_hits: 0,
            l1_misses: 0,
            l2_hits: 0,
            l2_misses: 0,
            l2_bytes_read: 0,
            l2_bytes_written: 0,
            l2_conditional_validations: 0,
            l2_errors: 0,
        }
    }
}

impl CacheStats {
    /// Adds the activity of another sample.
    pub fn add_assign(&mut self, rhs: Self)
        requires
            old(self).l1_hits + rhs.l1_hits <= u64::MAX,
            old(self).l1_misses + rhs.l1_misses <= u64::MAX,
            old(self).l2_hits + rhs.l2_hits <= u64::MAX,
            old(self).l2_misses + rhs.l2_misses <= u64::MAX,
            old(self).l2_bytes_read + rhs.l2_bytes_read <= u64::MAX,
            old(self).l2_bytes_written + rhs.l2_bytes_written <= u64::MAX,
            old(self).l2_conditional_validations + rhs.l2_conditional_validations <= u64::MAX,
            old(self).l2_errors + rhs.l2_errors <= u64::MAX,
        ensures
            final(self).l1_hits == old(self).l1_hits + rhs.l1_hits,
            final(self).l1_misses == old(self).l1_misses + rhs.l1_misses,
            final(self).l2_hits == old(self).l2_hits + rhs.l2_hits,
            final(self).l2_misses == old(self).l2_misses + rhs.l2_misses,
            final(self).l2_bytes_read == old(self).l2_bytes_read + rhs.l2_bytes_read,
            final(self).l2_bytes_written == old(self).l2_bytes_written + rhs.l2_bytes_written,
            final(self).l2_conditional_validations == old(self).l2_conditional_validations + rhs.l2_conditional_validations,
            final(self).l2_errors == old(self).l2_errors + rhs.l2_errors,
    {
        self.l1_hits = self.l1_hits + rhs.l1_hits;
        self.l1_misses = self.l1_misses + rhs.l1_misses;
        self.l2_hits = self.l2_hits + rhs.l2_hits;
        self.l2_misses = self.l2_misses + rhs.l2_misses;
        self.l2_bytes_read = self.l2_bytes_read + rhs.l2_bytes_read;
        self.l2_bytes_written = self.l2_bytes_written + rhs.l2_bytes_written;
        self.l2_conditional_validations = self.l2_conditional_validations + rhs.l2_conditional_validations;
        self.l2_errors = self.l2_errors + rhs.l2_errors;
    }

    /// Returns the activity since the sample `rhs`; no counter drops below zero.
    pub fn sub(self, rhs: Self) -> (r: Self)
        ensures
            r.l1_hits == drop_to_zero(self.l1_hits - rhs.l1_hits),
            r.l1_misses == drop_to_zero(self.l1_misses - rhs.l1_misses),
            r.l2_hits == drop_to_zero(self.l2_hits - rhs.l2_hits),
            r.l2_misses == drop_to_zero(self.l2_misses - rhs.l2_misses),
            r.l2_bytes_read == drop_to_zero(self.l2_bytes_read - rhs.l2_bytes_read),
            r.l2_bytes_written == drop_to_zero(self.l2_bytes_written - rhs.l2_bytes_written),
            r.l2_conditional_validations == drop_to_zero(self.l2_conditional_validations - rhs.l2_conditional_validations),
            r.l2_errors == drop_to_zero(self.l2_errors - rhs.l2_errors),
    {
        CacheStats {
            l1_hits: self.l1_hits.saturating_sub(rhs.l1_hits),
            l1_misses: self.l1_misses.saturating_sub(rhs.l1_misses),
            l2_hits: self.l2_hits.saturating_sub(rhs.l2_hits),
            l2_misses: self.l2_misses.saturating_sub(rhs.l2_misses),
            l2_bytes_read: self.l2_bytes_read.saturating_sub(rhs.l2_bytes_read),
            l2_bytes_written: self.l2_bytes_written.saturating_sub(rhs.l2_bytes_written),
            l2_conditional_validations: self.l2_conditional_validations.saturating_sub(rhs.l2_conditional_validations),
            l2_errors: self.l2_errors.saturating_sub(rhs.l2_errors),
        }
    }
}

/// Running counters of cache activity.
pub struct CacheMetrics {
    counts: CacheStats,
}

impl View for CacheMetrics {
    type V = CacheStats;

    closed spec fn view(&self) -> CacheStats {
        self.counts
    }
}

impl CacheMetrics {
    /// Creates counters that stand at zero.
    pub fn new() -> (r: Self)
        ensures
            r@ == no_activity(),
    {
        CacheMetrics { counts: CacheStats::default() }
    }

    /// Counts a read served from decoded knowledge.
    pub fn l1_hit(&mut self)
        ensures
            final(self)@ == (CacheStats {
                l1_hits: old(self)@.l1_hits.wrapping_add(1),
                ..old(self)@
            }),
    {
        self.counts.l1_hits = self.counts.l1_hits.wrapping_add(1);
    }

    /// Counts a read that needed a lower tier.
    pub fn l1_miss(&mut self)
        ensures
            final(self)@ == (CacheStats {
                l1_misses: old(self)@.l1_misses.wrapping_add(1),
                ..old(self)@
            }),
    {
        self.counts.l1_misses = self.counts.l1_misses.wrapping_add(1);
    }

    /// Counts a usable persistent record.
    pub fn l2_hit(&mut self)
        ensures
            final(self)@ == (CacheStats {
                l2_hits: old(self)@.l2_hits.wrapping_add(1),
                ..old(self)@
            }),
    {
        self.counts.l2_hits = self.counts.l2_hits.wrapping_add(1);
    }

    /// Counts a persistent lookup without a usable record.
    pub fn l2_miss(&mut self)
        ensures
            final(self)@ == (CacheStats {
                l2_misses: old(self)@.l2_misses.wrapping_add(1),
                ..old(self)@
            }),
    {
        self.counts.l2_misses = self.counts.l2_misses.wrapping_add(1);
    }

    /// Counts bytes read from the container.
    pub fn l2_read(&mut self, bytes: usize)
        ensures
            final(self)@ == (CacheStats {
                l2_bytes_read: old(self)@.l2_bytes_read.wrapping_add(bytes as u64),
                ..old(self)@
            }),
    {
        self.counts.l2_bytes_read = self.counts.l2_bytes_read.wrapping_add(bytes as u64);
    }

    /// Counts bytes written to the container.
    pub fn l2_write(&mut self, bytes: usize)
        ensures
            final(self)@ == (CacheStats {
                l2_bytes_written: old(self)@.l2_bytes_written.wrapping_add(bytes as u64),
                ..old(self)@
            }),
    {
        self.counts.l2_bytes_written = self.counts.l2_bytes_written.wrapping_add(bytes as u64);
    }

    /// Counts a conditional backend read seeded by a persisted body.
    pub fn l2_conditional_validation(&mut self)
        ensures
            final(self)@ == (CacheStats {
                l2_conditional_validations: old(self)@.l2_conditional_validations.wrapping_add(1),
                ..old(self)@
            }),
    {
        self.counts.l2_conditional_validations = self.counts.l2_conditional_validations.wrapping_add(1);
    }

    /// Counts several failures of the persistent cache.
    pub fn l2_errors(&mut self, errors: usize)
        ensures
            final(self)@ == (CacheStats {
                l2_errors: old(self)@.l2_errors.wrapping_add(errors as u64),
                ..old(self)@
            }),
    {
        self.counts.l2_errors = self.counts.l2_errors.wrapping_add(errors as u64);
    }

    /// Counts a failure of the persistent cache.
    pub fn l2_error(&mut self)
        ensures
            final(self)@ == (CacheStats {
                l2_errors: old(self)@.l2_errors.wrapping_add(1),
                ..old(self)@
            }),
    {
        self.counts.l2_errors = self.counts.l2_errors.wrapping_add(1);
    }

    /// Returns the counters and sets them to zero.
    pub fn snapshot_and_reset(&mut self) -> (r: CacheStats)
        ensures
            r == old(self)@,
            final(self)@ == no_activity(),
    {
        let r = self.counts;
        self.counts = CacheStats::default();
        r
    }
}

} // verus!
