//! Counters every collector maintains, and which the benchmark reports.
//!
//! Durations are kept as whole nanoseconds.

use vstd::prelude::*;

verus! {

#[derive(Clone, Debug)]
pub struct GcStats {
    /// Objects handed out by `alloc`.
    pub allocations: u64,
    /// Bytes handed out by `alloc`, including headers and padding.
    pub bytes_allocated: u64,
    /// Allocation requests that could not be satisfied even after collecting.
    pub allocation_failures: u64,
    /// Total collections of any kind.
    pub collections: u64,
    /// Collections that looked at only the youngest generation.
    pub minor_collections: u64,
    /// Collections that looked at the whole heap.
    pub major_collections: u64,
    /// Objects reclaimed across all collections.
    pub objects_freed: u64,
    /// Bytes reclaimed across all collections.
    pub bytes_freed: u64,
    /// Objects visited by a marking phase.
    pub objects_marked: u64,
    /// Objects physically moved by a relocating collector.
    pub objects_copied: u64,
    /// Objects moved from a younger generation to an older one.
    pub objects_promoted: u64,
    /// Write barrier invocations.
    pub barrier_hits: u64,
    /// Entries currently in the remembered set.
    pub remembered_entries: u64,
    /// Incremental marking steps performed.
    pub increments: u64,
    /// High water mark of bytes in use.
    pub peak_used_bytes: u64,
    /// Nanoseconds spent inside collections.
    pub gc_time: u64,
    /// Longest single stop-the-world pause, in nanoseconds.
    pub max_pause: u64,
}

impl Default for GcStats {
    fn default() -> (r: GcStats)
        ensures
            r.allocations == 0 && r.bytes_allocated == 0 && r.allocation_failures == 0,
            r.collections == 0 && r.minor_collections == 0 && r.major_collections == 0,
            r.objects_freed == 0 && r.bytes_freed == 0 && r.objects_marked == 0,
            r.objects_copied == 0 && r.objects_promoted == 0 && r.barrier_hits == 0,
            r.remembered_entries == 0 && r.increments == 0 && r.peak_used_bytes == 0,
            r.gc_time == 0 && r.max_pause == 0,
    {
        GcStats {
            allocations: 0,
            bytes_allocated: 0,
            allocation_failures: 0,
            collections: 0,
            minor_collections: 0,
            major_collections: 0,
            objects_freed: 0,
            bytes_freed: 0,
            objects_marked: 0,
            objects_copied: 0,
            objects_promoted: 0,
            barrier_hits: 0,
            remembered_entries: 0,
            increments: 0,
            peak_used_bytes: 0,
            gc_time: 0,
            max_pause: 0,
        }
    }
}

/// `x + y`, pinned at `u64::MAX` rather than wrapping.
pub open spec fn sat_add(x: u64, y: u64) -> u64 {
    if x + y > u64::MAX {
        u64::MAX
    } else {
        (x + y) as u64
    }
}

/// `b` has the collection counters of `a`, and its count of failed
/// allocations.
pub open spec fn same_collections(a: GcStats, b: GcStats) -> bool {
    &&& b.collections == a.collections
    &&& b.minor_collections == a.minor_collections
    &&& b.major_collections == a.major_collections
    &&& b.allocation_failures == a.allocation_failures
}

/// The high water mark once `used` bytes have been seen in use.
pub open spec fn peak_after(s: GcStats, used: u32) -> u64 {
    if used > s.peak_used_bytes {
        used as u64
    } else {
        s.peak_used_bytes
    }
}

/// The counters once one allocation of `size` bytes has been recorded,
/// with `used` bytes in use afterwards.
pub open spec fn counted_allocation(s: GcStats, size: int, used: u32) -> GcStats {
    GcStats {
        allocations: sat_add(s.allocations, 1),
        bytes_allocated: sat_add(s.bytes_allocated, size as u64),
        peak_used_bytes: peak_after(s, used),
        ..s
    }
}

impl GcStats {
    /// Fold one collection's duration, in nanoseconds, into the timing counters.
    pub fn record_pause(&mut self, nanos: u64)
        ensures
            *final(self) == (GcStats {
                gc_time: sat_add(old(self).gc_time, nanos),
                max_pause: if nanos > old(self).max_pause {
                    nanos
                } else {
                    old(self).max_pause
                },
                ..*old(self)
            }),
    {
        self.gc_time = self.gc_time.saturating_add(nanos);
        if nanos > self.max_pause {
            self.max_pause = nanos;
        }
    }

    /// Update the high water mark.
    pub fn observe_used(&mut self, used: u32)
        ensures
            *final(self) == (GcStats { peak_used_bytes: peak_after(*old(self), used), ..*old(self) }),
    {
        if used as u64 > self.peak_used_bytes {
            self.peak_used_bytes = used as u64;
        }
    }
}

} // verus!
