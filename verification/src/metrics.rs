use vstd::prelude::*;

verus! {

/// Counters of a scan. `in_flight` is the number of directories queued or
/// being read; `peak_in_flight` its highest value seen so far (a negative
/// count never raises it, and a count beyond `usize::MAX` raises it to
/// `usize::MAX`). Like the atomic counters they stand for, the other
/// counters wrap around on overflow.
#[derive(Debug)]
pub struct Metrics {
    pub in_flight: i64,
    pub peak_in_flight: usize,
    pub dirs_scanned: usize,
    pub dirs_failed: usize,
    pub files_found: usize,
    pub symlinks_skipped: usize,
    pub cycles_detected: usize,
}

/// `x + 1` on a wrapping `usize` counter.
pub open spec fn bump(x: usize) -> usize {
    vstd::wrapping::usize_specs::wrapping_add(x, 1)
}

/// `x + 1` on the wrapping `i64` in-flight counter.
pub open spec fn inc_i64(x: i64) -> i64 {
    vstd::wrapping::i64_specs::wrapping_add(x, 1)
}

/// `x - 1` on the wrapping `i64` in-flight counter.
pub open spec fn dec_i64(x: i64) -> i64 {
    vstd::wrapping::i64_specs::wrapping_sub(x, 1)
}

/// The high-water mark after observing `in_flight`: the count itself when
/// it is higher than the peak (capped at `usize::MAX`), else the peak.
pub open spec fn peak_after(peak: usize, in_flight: i64) -> usize {
    if in_flight > peak {
        if in_flight > usize::MAX {
            usize::MAX
        } else {
            in_flight as usize
        }
    } else {
        peak
    }
}

impl Metrics {
    /// All counters at zero.
    pub fn new() -> (m: Self)
        ensures
            m.in_flight == 0,
            m.peak_in_flight == 0,
            m.dirs_scanned == 0,
            m.dirs_failed == 0,
            m.files_found == 0,
            m.symlinks_skipped == 0,
            m.cycles_detected == 0,
    {
        Metrics {
            in_flight: 0,
            peak_in_flight: 0,
            dirs_scanned: 0,
            dirs_failed: 0,
            files_found: 0,
            symlinks_skipped: 0,
            cycles_detected: 0,
        }
    }

    /// Raises `peak_in_flight` to the current `in_flight` if that is higher
    /// (a negative count leaves it unchanged). Called after every increment
    /// of `in_flight`.
    pub fn update_peak(&mut self)
        ensures
            final(self).peak_in_flight == peak_after(old(self).peak_in_flight, old(self).in_flight),
            final(self).in_flight == old(self).in_flight,
            final(self).dirs_scanned == old(self).dirs_scanned,
            final(self).dirs_failed == old(self).dirs_failed,
            final(self).files_found == old(self).files_found,
            final(self).symlinks_skipped == old(self).symlinks_skipped,
            final(self).cycles_detected == old(self).cycles_detected,
    {
        if self.in_flight > 0 {
            let count = self.in_flight as u64;
            let current: usize = if count > usize::MAX as u64 {
                usize::MAX
            } else {
                count as usize
            };
            if current > self.peak_in_flight {
                self.peak_in_flight = current;
            }
        }
    }

    /// A directory is about to be queued: one more in flight, and the peak
    /// follows.
    pub fn dir_enqueued(&mut self)
        ensures
            final(self).in_flight == inc_i64(old(self).in_flight),
            final(self).peak_in_flight == peak_after(
                old(self).peak_in_flight,
                inc_i64(old(self).in_flight),
            ),
            final(self).dirs_scanned == old(self).dirs_scanned,
            final(self).dirs_failed == old(self).dirs_failed,
            final(self).files_found == old(self).files_found,
            final(self).symlinks_skipped == old(self).symlinks_skipped,
            final(self).cycles_detected == old(self).cycles_detected,
    {
        self.in_flight = self.in_flight.wrapping_add(1);
        self.update_peak();
    }

    /// Queuing a directory failed (the queue was closed): it is no longer
    /// in flight.
    pub fn enqueue_failed(&mut self)
        ensures
            final(self).in_flight == dec_i64(old(self).in_flight),
            final(self).peak_in_flight == old(self).peak_in_flight,
            final(self).dirs_scanned == old(self).dirs_scanned,
            final(self).dirs_failed == old(self).dirs_failed,
            final(self).files_found == old(self).files_found,
            final(self).symlinks_skipped == old(self).symlinks_skipped,
            final(self).cycles_detected == old(self).cycles_detected,
    {
        self.in_flight = self.in_flight.wrapping_sub(1);
    }

    /// A directory has been read and all its entries handled.
    pub fn dir_done(&mut self)
        ensures
            final(self).in_flight == dec_i64(old(self).in_flight),
            final(self).dirs_scanned == bump(old(self).dirs_scanned),
            final(self).peak_in_flight == old(self).peak_in_flight,
            final(self).dirs_failed == old(self).dirs_failed,
            final(self).files_found == old(self).files_found,
            final(self).symlinks_skipped == old(self).symlinks_skipped,
            final(self).cycles_detected == old(self).cycles_detected,
    {
        self.dirs_scanned = self.dirs_scanned.wrapping_add(1);
        self.in_flight = self.in_flight.wrapping_sub(1);
    }

    /// A directory could not be read.
    pub fn dir_failed(&mut self)
        ensures
            final(self).in_flight == dec_i64(old(self).in_flight),
            final(self).dirs_failed == bump(old(self).dirs_failed),
            final(self).peak_in_flight == old(self).peak_in_flight,
            final(self).dirs_scanned == old(self).dirs_scanned,
            final(self).files_found == old(self).files_found,
            final(self).symlinks_skipped == old(self).symlinks_skipped,
            final(self).cycles_detected == old(self).cycles_detected,
    {
        self.dirs_failed = self.dirs_failed.wrapping_add(1);
        self.in_flight = self.in_flight.wrapping_sub(1);
    }

    /// Whether no directory is queued or being read: the scan is over.
    pub fn is_idle(&self) -> (idle: bool)
        ensures
            idle == (self.in_flight == 0),
    {
        self.in_flight == 0
    }
}

/// Queuing a directory and then finishing it (read, failed, or not
/// queued after all) leaves the in-flight count where it was, for every
/// count, wrap-around included.
pub proof fn lemma_enqueue_then_finish_restores(in_flight: i64)
    ensures
        dec_i64(inc_i64(in_flight)) == in_flight,
{
}

/// The peak is a high-water mark: it never goes down, a negative count
/// leaves it alone, and after an update it is at least the current count
/// (when that fits in a `usize`).
pub proof fn lemma_peak_is_high_water_mark(peak: usize, in_flight: i64)
    ensures
        peak_after(peak, in_flight) >= peak,
        0 <= in_flight <= usize::MAX ==> peak_after(peak, in_flight) >= in_flight,
        in_flight < 0 ==> peak_after(peak, in_flight) == peak,
        peak_after(peak_after(peak, in_flight), in_flight) == peak_after(peak, in_flight),
{
}

/// A scan's life as the in-flight counter sees it: `true` for a directory
/// queued (`dir_enqueued`), `false` for one finished (`dir_done`,
/// `dir_failed` or `enqueue_failed`).
pub open spec fn replay(events: Seq<bool>) -> (i64, usize)
    decreases events.len(),
{
    if events.len() == 0 {
        (0, 0)
    } else {
        let (f, p) = replay(events.drop_last());
        if events.last() {
            (inc_i64(f), peak_after(p, inc_i64(f)))
        } else {
            (dec_i64(f), p)
        }
    }
}

/// Directories queued minus directories finished.
pub open spec fn outstanding(events: Seq<bool>) -> int
    decreases events.len(),
{
    if events.len() == 0 {
        0
    } else {
        outstanding(events.drop_last()) + if events.last() {
            1int
        } else {
            -1int
        }
    }
}

/// The highest number of outstanding directories at any point (0 at the
/// start).
pub open spec fn highest_outstanding(events: Seq<bool>) -> int
    decreases events.len(),
{
    if events.len() == 0 {
        0
    } else {
        let h = highest_outstanding(events.drop_last());
        let o = outstanding(events);
        if o > h {
            o
        } else {
            h
        }
    }
}

/// The in-flight accounting over a scan: starting from `Metrics::new`, if
/// the outstanding count never goes below zero or beyond what `i64` and
/// `usize` hold, then after any sequence of queued and finished directories
/// `in_flight` is exactly the number queued and not yet finished, and
/// `peak_in_flight` is the highest that number has been.
pub proof fn lemma_in_flight_accounting(events: Seq<bool>)
    requires
        forall|i: int|
            0 <= i <= events.len() ==> 0 <= #[trigger] outstanding(events.take(i)) <= i64::MAX
                && outstanding(events.take(i)) <= usize::MAX,
    ensures
        replay(events).0 == outstanding(events),
        replay(events).1 == highest_outstanding(events),
    decreases events.len(),
{
    if events.len() > 0 {
        let pre = events.drop_last();
        assert forall|i: int| 0 <= i <= pre.len() implies 0 <= #[trigger] outstanding(pre.take(i))
            <= i64::MAX && outstanding(pre.take(i)) <= usize::MAX by {
            assert(pre.take(i) =~= events.take(i));
        }
        lemma_in_flight_accounting(pre);
        assert(events.take(events.len() as int) =~= events);
        assert(events.take(pre.len() as int) =~= pre);
        lemma_highest_nonneg(pre);
    }
}

proof fn lemma_highest_nonneg(events: Seq<bool>)
    ensures
        highest_outstanding(events) >= 0,
        highest_outstanding(events) >= outstanding(events),
    decreases events.len(),
{
    if events.len() > 0 {
        lemma_highest_nonneg(events.drop_last());
    }
}

} // verus!
