//! Rolling throughput accounting: byte counts over a sliding time window.

use std::collections::VecDeque;
use std::ops::Index;

use vstd::prelude::*;

verus! {

broadcast use vstd::std_specs::vecdeque::group_vec_dequeue_axioms;

/// The log after dropping leading entries older than `window_ms` before
/// `now_ms`.
pub open spec fn evicted(s: Seq<(u64, usize)>, now_ms: int, window_ms: int) -> Seq<(u64, usize)>
    decreases s.len(),
{
    if s.len() > 0 && now_ms - s[0].0 > window_ms {
        evicted(s.drop_first(), now_ms, window_ms)
    } else {
        s
    }
}

/// Total bytes over a run of log entries.
pub open spec fn sum_bytes(s: Seq<(u64, usize)>) -> int
    decreases s.len(),
{
    if s.len() == 0 {
        0
    } else {
        sum_bytes(s.drop_last()) + s.last().1
    }
}

/// Total bytes of the entries no older than `window_ms` before `now_ms`.
pub open spec fn in_window_sum(s: Seq<(u64, usize)>, now_ms: int, window_ms: int) -> int
    decreases s.len(),
{
    if s.len() == 0 {
        0
    } else {
        in_window_sum(s.drop_last(), now_ms, window_ms) + (if now_ms - s.last().0 <= window_ms {
            s.last().1 as int
        } else {
            0
        })
    }
}

/// Entries are strictly ordered by time: one entry per millisecond.
pub open spec fn times_sorted(s: Seq<(u64, usize)>) -> bool {
    forall|i: int, j: int| 0 <= i < j < s.len() ==> (#[trigger] s[i]).0 < (#[trigger] s[j]).0
}

/// The log after taking in `bytes` at `now_ms`: a record in the same
/// millisecond as the last entry merges into it, saturating; otherwise a
/// new entry is appended.
pub open spec fn coalesced(s: Seq<(u64, usize)>, now_ms: u64, bytes: usize) -> Seq<(u64, usize)> {
    if s.len() > 0 && s.last().0 == now_ms {
        s.drop_last().push(
            (
                now_ms,
                if s.last().1 + bytes > usize::MAX {
                    usize::MAX
                } else {
                    (s.last().1 + bytes) as usize
                },
            ),
        )
    } else {
        s.push((now_ms, bytes))
    }
}

/// A byte counter over a sliding window.
///
/// Timestamps are milliseconds on the caller's monotonic clock; queries
/// count only the entries within the window ending now.
pub struct ThroughputRate {
    log: VecDeque<(u64, usize)>,
    window_secs: u64,
}

impl ThroughputRate {
    /// The logged entries, oldest first.
    pub closed spec fn spec_log(&self) -> Seq<(u64, usize)> {
        self.log@
    }

    /// The window length in seconds.
    pub closed spec fn spec_window_secs(&self) -> u64 {
        self.window_secs
    }

    /// The window length in milliseconds.
    pub open spec fn spec_window_ms(&self) -> int {
        self.spec_window_secs() * 1000
    }

    /// The window is nonempty and in range; entries are strictly ordered
    /// by timestamp.
    pub open spec fn wf(&self) -> bool {
        &&& 1 <= self.spec_window_secs() <= 0xffff_ffff
        &&& times_sorted(self.spec_log())
    }

    /// An empty counter over a `window_secs`-second window.
    pub fn new(window_secs: u64) -> (r: Self)
        requires
            1 <= window_secs <= 0xffff_ffff,
        ensures
            r.wf(),
            r.spec_log() == Seq::<(u64, usize)>::empty(),
            r.spec_window_secs() == window_secs,
    {
        ThroughputRate { log: VecDeque::new(), window_secs }
    }

    /// Logs `bytes` at `now_ms` — merging into the last entry when it
    /// carries the same timestamp — then drops entries that fell out of
    /// the window.
    pub fn record(&mut self, now_ms: u64, bytes: usize)
        requires
            old(self).wf(),
            old(self).spec_log().len() > 0 ==> old(self).spec_log().last().0 <= now_ms,
        ensures
            final(self).wf(),
            final(self).spec_window_secs() == old(self).spec_window_secs(),
            final(self).spec_log() == evicted(
                coalesced(old(self).spec_log(), now_ms, bytes),
                now_ms as int,
                old(self).spec_window_ms(),
            ),
    {
        let n = self.log.len();
        if n > 0 && self.log.index(n - 1).0 == now_ms {
            let last = *self.log.index(n - 1);
            self.log.pop_back();
            let merged: usize = if last.1 > usize::MAX - bytes {
                usize::MAX
            } else {
                last.1 + bytes
            };
            self.log.push_back((now_ms, merged));
            proof {
                assert(self.log@ =~= coalesced(old(self).spec_log(), now_ms, bytes));
                assert forall|i: int, j: int| 0 <= i < j < self.log@.len() implies (
                #[trigger] self.log@[i]).0 < (#[trigger] self.log@[j]).0 by {
                    assert(self.log@[i] == old(self).spec_log()[i]);
                    if j < self.log@.len() - 1 {
                        assert(self.log@[j] == old(self).spec_log()[j]);
                    } else {
                        assert(old(self).spec_log()[i].0 < old(self).spec_log().last().0);
                    }
                }
            }
        } else {
            self.log.push_back((now_ms, bytes));
            proof {
                assert(self.log@ =~= coalesced(old(self).spec_log(), now_ms, bytes));
                assert forall|i: int, j: int| 0 <= i < j < self.log@.len() implies (
                #[trigger] self.log@[i]).0 < (#[trigger] self.log@[j]).0 by {
                    assert(self.log@[i] == old(self).spec_log()[i]);
                    if j < self.log@.len() - 1 {
                        assert(self.log@[j] == old(self).spec_log()[j]);
                    } else {
                        assert(old(self).spec_log().last().0 != now_ms || old(
                            self,
                        ).spec_log().len() == 0);
                        if old(self).spec_log().len() > 0 {
                            assert(self.log@[i].0 <= old(self).spec_log().last().0);
                        }
                    }
                }
            }
        }
        self.cleanup_log(now_ms);
    }

    /// Drops leading entries older than the window before `now_ms`.
    pub fn cleanup_log(&mut self, now_ms: u64)
        requires
            old(self).wf(),
        ensures
            final(self).wf(),
            final(self).spec_window_secs() == old(self).spec_window_secs(),
            final(self).spec_log() == evicted(
                old(self).spec_log(),
                now_ms as int,
                old(self).spec_window_ms(),
            ),
    {
        let window_ms: u64 = self.window_secs * 1000;
        loop
            invariant
                self.wf(),
                self.window_secs == old(self).spec_window_secs(),
                window_ms == self.spec_window_ms(),
                evicted(self.log@, now_ms as int, window_ms as int) == evicted(
                    old(self).spec_log(),
                    now_ms as int,
                    window_ms as int,
                ),
            decreases self.log@.len(),
        {
            let stale = if self.log.len() > 0 {
                let e = *self.log.index(0);
                now_ms >= e.0 && now_ms - e.0 > window_ms
            } else {
                false
            };
            if !stale {
                proof {
                    if self.log@.len() > 0 {
                        assert(!(now_ms - self.log@[0].0 > window_ms));
                    }
                    assert(evicted(self.log@, now_ms as int, window_ms as int) == self.log@);
                }
                return ;
            }
            let ghost pre = self.log@;
            self.log.pop_front();
            proof {
                assert(self.log@ =~= pre.drop_first());
                assert(evicted(pre, now_ms as int, window_ms as int) == evicted(
                    self.log@,
                    now_ms as int,
                    window_ms as int,
                ));
                assert forall|i: int, j: int| 0 <= i < j < self.log@.len() implies (
                #[trigger] self.log@[i]).0 < (#[trigger] self.log@[j]).0 by {
                    assert(self.log@[i] == pre[i + 1]);
                    assert(self.log@[j] == pre[j + 1]);
                }
            }
        }
    }

    /// The in-window byte total divided by the window length, saturated at
    /// the integer's limit.
    pub open spec fn spec_rate(&self, now_ms: int) -> int {
        let q = in_window_sum(self.spec_log(), now_ms, self.spec_window_ms())
            / self.spec_window_secs() as int;
        if q > u64::MAX {
            u64::MAX as int
        } else {
            q
        }
    }

    /// Bytes per second over the window ending at `now_ms`: the in-window
    /// byte total divided by the window length.
    pub fn rate(&self, now_ms: u64) -> (r: u64)
        requires
            self.wf(),
        ensures
            r == self.spec_rate(now_ms as int),
    {
        let window_ms: u64 = self.window_secs * 1000;
        let mut total: u128 = 0;
        let mut i: usize = 0;
        proof {
            assert(self.log@.take(0) =~= Seq::<(u64, usize)>::empty());
            lemma_in_window_sum_bounds(self.log@.take(0), now_ms as int, window_ms as int);
        }
        while i < self.log.len()
            invariant
                self.wf(),
                i <= self.log@.len(),
                window_ms == self.spec_window_ms(),
                total == in_window_sum(self.log@.take(i as int), now_ms as int, window_ms as int),
                total <= (i as int) * (usize::MAX as int),
            decreases self.log@.len() - i,
        {
            let e = *self.log.index(i);
            proof {
                assert(self.log@.take(i + 1).drop_last() =~= self.log@.take(i as int));
                assert(self.log@.take(i + 1).last() == self.log@[i as int]);
                assert((i as int) * (usize::MAX as int) + usize::MAX == (i + 1) * (
                usize::MAX as int)) by (nonlinear_arith);
                assert((i + 1) * (usize::MAX as int) <= u128::MAX) by (nonlinear_arith)
                    requires
                        0 <= i + 1 <= usize::MAX,
                ;
            }
            let fresh = if now_ms >= e.0 {
                now_ms - e.0 <= window_ms
            } else {
                true
            };
            if fresh {
                total = total + (e.1 as u128);
            }
            i = i + 1;
        }
        proof {
            assert(self.log@.take(self.log@.len() as int) =~= self.log@);
            lemma_in_window_sum_bounds(self.log@, now_ms as int, window_ms as int);
        }
        let q = total / (self.window_secs as u128);
        if q > u64::MAX as u128 {
            u64::MAX
        } else {
            q as u64
        }
    }
}

/// The in-window total is between zero and the total of all entries.
proof fn lemma_in_window_sum_bounds(s: Seq<(u64, usize)>, now_ms: int, window_ms: int)
    ensures
        0 <= in_window_sum(s, now_ms, window_ms),
        in_window_sum(s, now_ms, window_ms) <= sum_bytes(s),
    decreases s.len(),
{
    if s.len() > 0 {
        lemma_in_window_sum_bounds(s.drop_last(), now_ms, window_ms);
    }
}

/// Law: a window with nothing fresh in it reports a rate of zero. Every
/// entry older than the window contributes nothing, so once a full window
/// passes with no writes the rate is zero.
pub proof fn lemma_rate_zero_when_stale(s: Seq<(u64, usize)>, now_ms: int, window_ms: int)
    requires
        forall|i: int| 0 <= i < s.len() ==> now_ms - (#[trigger] s[i]).0 > window_ms,
    ensures
        in_window_sum(s, now_ms, window_ms) == 0,
    decreases s.len(),
{
    if s.len() > 0 {
        lemma_rate_zero_when_stale(s.drop_last(), now_ms, window_ms);
    }
}

/// Law: a window holding exactly the fresh entries reports their total.
/// When every logged entry is within the window, the rate is the whole
/// byte total divided by the window length.
pub proof fn lemma_rate_full_window(s: Seq<(u64, usize)>, now_ms: int, window_ms: int)
    requires
        forall|i: int| 0 <= i < s.len() ==> now_ms - (#[trigger] s[i]).0 <= window_ms,
    ensures
        in_window_sum(s, now_ms, window_ms) == sum_bytes(s),
    decreases s.len(),
{
    if s.len() > 0 {
        lemma_rate_full_window(s.drop_last(), now_ms, window_ms);
    }
}

/// Upload and download counters over the same window.
pub struct PeerStats {
    upload: ThroughputRate,
    download: ThroughputRate,
}

impl PeerStats {
    pub closed spec fn spec_upload(&self) -> ThroughputRate {
        self.upload
    }

    pub closed spec fn spec_download(&self) -> ThroughputRate {
        self.download
    }

    pub open spec fn wf(&self) -> bool {
        self.spec_upload().wf() && self.spec_download().wf()
    }

    /// Fresh counters over a `window_secs`-second window.
    pub fn new(window_secs: u64) -> (r: Self)
        requires
            1 <= window_secs <= 0xffff_ffff,
        ensures
            r.wf(),
            r.spec_upload().spec_log().len() == 0,
            r.spec_download().spec_log().len() == 0,
            r.spec_upload().spec_window_secs() == window_secs,
            r.spec_download().spec_window_secs() == window_secs,
    {
        PeerStats { upload: ThroughputRate::new(window_secs), download: ThroughputRate::new(window_secs) }
    }

    /// Logs bytes sent to the peer.
    pub fn record_upload(&mut self, now_ms: u64, bytes: usize)
        requires
            old(self).wf(),
            old(self).spec_upload().spec_log().len() > 0 ==> old(
                self,
            ).spec_upload().spec_log().last().0 <= now_ms,
        ensures
            final(self).wf(),
            final(self).spec_download() == old(self).spec_download(),
            final(self).spec_upload().spec_window_secs() == old(
                self,
            ).spec_upload().spec_window_secs(),
            final(self).spec_upload().spec_log() == evicted(
                coalesced(old(self).spec_upload().spec_log(), now_ms, bytes),
                now_ms as int,
                old(self).spec_upload().spec_window_ms(),
            ),
    {
        self.upload.record(now_ms, bytes);
    }

    /// Logs bytes received from the peer.
    pub fn record_download(&mut self, now_ms: u64, bytes: usize)
        requires
            old(self).wf(),
            old(self).spec_download().spec_log().len() > 0 ==> old(
                self,
            ).spec_download().spec_log().last().0 <= now_ms,
        ensures
            final(self).wf(),
            final(self).spec_upload() == old(self).spec_upload(),
            final(self).spec_download().spec_window_secs() == old(
                self,
            ).spec_download().spec_window_secs(),
            final(self).spec_download().spec_log() == evicted(
                coalesced(old(self).spec_download().spec_log(), now_ms, bytes),
                now_ms as int,
                old(self).spec_download().spec_window_ms(),
            ),
    {
        self.download.record(now_ms, bytes);
    }

    /// Upload bytes per second over the window ending at `now_ms`.
    pub fn upload_rate(&self, now_ms: u64) -> (r: u64)
        requires
            self.wf(),
        ensures
            r == self.spec_upload().spec_rate(now_ms as int),
    {
        self.upload.rate(now_ms)
    }

    /// Download bytes per second over the window ending at `now_ms`.
    pub fn download_rate(&self, now_ms: u64) -> (r: u64)
        requires
            self.wf(),
        ensures
            r == self.spec_download().spec_rate(now_ms as int),
    {
        self.download.rate(now_ms)
    }
}

} // verus!
