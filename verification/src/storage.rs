//! The replay buffer: a time-ordered window of encoded access units with
//! keyframe-aligned eviction and keyframe-aligned export.
//!
//! Eviction runs after every ingest and is driven by two soft limits, a
//! retention duration and an optional byte budget.  Both are snapped backward
//! to the nearest preceding sync point, so the buffer can always be exported
//! from a point where a decoder can start.

use vstd::prelude::*;

verus! {

/// One encoded access unit held by the replay buffer: the payload, the
/// monotonic capture timestamp in milliseconds, and whether the unit can
/// start an independently decodable segment.
#[derive(Debug)]
pub struct TimestampedPacket {
    pub data: Vec<u8>,
    pub timestamp: u64,
    pub is_keyframe: bool,
}

/// The mathematical image of a `TimestampedPacket`.
pub struct PacketModel {
    pub data: Seq<u8>,
    pub timestamp: u64,
    pub is_keyframe: bool,
}

impl View for TimestampedPacket {
    type V = PacketModel;

    open spec fn view(&self) -> PacketModel {
        PacketModel {
            data: self.data@,
            timestamp: self.timestamp,
            is_keyframe: self.is_keyframe,
        }
    }
}

/// The packet sequence a `Vec<TimestampedPacket>` stands for.
pub open spec fn models(s: Seq<TimestampedPacket>) -> Seq<PacketModel> {
    s.map_values(|p: TimestampedPacket| p@)
}

/// Total payload size of a packet sequence.
pub open spec fn sum_bytes(ps: Seq<PacketModel>) -> int
    decreases ps.len(),
{
    if ps.len() == 0 {
        0
    } else {
        ps[0].data.len() + sum_bytes(ps.drop_first())
    }
}

/// Capture timestamps never decrease along the sequence.
pub open spec fn ts_sorted(ps: Seq<PacketModel>) -> bool {
    forall|i: int, j: int| 0 <= i <= j < ps.len() ==> ps[i].timestamp <= ps[j].timestamp
}

/// Whether the sequence holds at least one sync point.
pub open spec fn has_sync(ps: Seq<PacketModel>) -> bool {
    exists|i: int| 0 <= i < ps.len() && ps[i].is_keyframe
}

/// The sequence is empty or begins at a sync point.
pub open spec fn starts_at_sync(ps: Seq<PacketModel>) -> bool {
    ps.len() > 0 ==> ps[0].is_keyframe
}

/// Index of the first packet captured at or after `cutoff`, if any.
pub open spec fn first_at_or_after(ps: Seq<PacketModel>, cutoff: u64) -> Option<int>
    decreases ps.len(),
{
    if ps.len() == 0 {
        None
    } else if ps[0].timestamp >= cutoff {
        Some(0)
    } else {
        match first_at_or_after(ps.drop_first(), cutoff) {
            Some(i) => Some(i + 1),
            None => None,
        }
    }
}

/// Index of the last sync point at or before position `i`, if any.
pub open spec fn last_sync_at_or_before(ps: Seq<PacketModel>, i: int) -> Option<int>
    decreases i + 1,
{
    if i < 0 || i >= ps.len() {
        None
    } else if ps[i].is_keyframe {
        Some(i)
    } else {
        last_sync_at_or_before(ps, i - 1)
    }
}

/// Index of the first sync point at or after position `i`, if any.
pub open spec fn first_sync_at_or_after(ps: Seq<PacketModel>, i: int) -> Option<int>
    decreases ps.len() - i,
{
    if i < 0 || i >= ps.len() {
        None
    } else if ps[i].is_keyframe {
        Some(i)
    } else {
        first_sync_at_or_after(ps, i + 1)
    }
}

/// Smallest index whose suffix fits within `budget` bytes.
pub open spec fn budget_anchor(ps: Seq<PacketModel>, budget: u64) -> int
    decreases ps.len(),
{
    if sum_bytes(ps) <= budget {
        0
    } else {
        1 + budget_anchor(ps.drop_first(), budget)
    }
}

/// `a - b`, floored at zero.
pub open spec fn sat_sub(a: u64, b: u64) -> u64 {
    if a >= b {
        (a - b) as u64
    } else {
        0
    }
}

/// The retention rule: find the first packet still inside the retention
/// window (falling back to the newest packet when everything is stale), snap
/// backward to the nearest sync point at or before it, and drop everything
/// in front of that sync point.  When no such sync point exists nothing is
/// dropped.
pub open spec fn time_evicted(ps: Seq<PacketModel>, cutoff: u64) -> Seq<PacketModel> {
    let anchor = match first_at_or_after(ps, cutoff) {
        Some(i) => i,
        None => ps.len() - 1,
    };
    match last_sync_at_or_before(ps, anchor) {
        Some(k) => ps.skip(k),
        None => ps,
    }
}

/// The byte-budget rule: when the total payload exceeds the budget, the
/// first index whose suffix fits the budget plays the role of the cutoff
/// index, and the same backward snap to a sync point is applied to it.
pub open spec fn budget_evicted(ps: Seq<PacketModel>, budget: Option<u64>) -> Seq<PacketModel> {
    match budget {
        None => ps,
        Some(b) => {
            if sum_bytes(ps) <= b {
                ps
            } else {
                let j = budget_anchor(ps, b);
                let anchor = if j >= ps.len() {
                    ps.len() - 1
                } else {
                    j
                };
                match last_sync_at_or_before(ps, anchor) {
                    Some(k) => ps.skip(k),
                    None => ps,
                }
            }
        },
    }
}

/// What one ingest call does to the packet sequence: append the new unit
/// stamped `now`, then apply the retention rule and the byte-budget rule.
pub open spec fn ingested(
    ps: Seq<PacketModel>,
    data: Seq<u8>,
    is_keyframe: bool,
    now: u64,
    retention_ms: u64,
    budget: Option<u64>,
) -> Seq<PacketModel> {
    let unit = PacketModel { data, timestamp: now, is_keyframe };
    let appended = ps.push(unit);
    budget_evicted(time_evicted(appended, sat_sub(now, retention_ms)), budget)
}

/// Why an export request can fail.
#[derive(Clone, Copy, Debug, PartialEq, Eq, Structural)]
pub enum ExportError {
    /// Export was requested before any unit was ingested.
    EmptyBuffer,
    /// The buffer holds data but no sync point, so no decodable clip exists.
    NoSyncPoint,
}

/// Start of the export window: the first packet inside the requested window
/// (the whole buffer when none qualifies), advanced to the first sync point
/// at or after it; when the window holds no sync point, the last sync point
/// anywhere in the buffer.  `None` means the buffer has no sync point.
pub open spec fn export_start(ps: Seq<PacketModel>, cutoff: u64) -> Option<int> {
    let w = match first_at_or_after(ps, cutoff) {
        Some(i) => i,
        None => 0,
    };
    match first_sync_at_or_after(ps, w) {
        Some(s) => Some(s),
        None => last_sync_at_or_before(ps, ps.len() - 1),
    }
}

/// What one export call returns for a buffer state, a window length and the
/// current time.
pub open spec fn exported(ps: Seq<PacketModel>, window_ms: u64, now: u64) -> Result<
    Seq<PacketModel>,
    ExportError,
> {
    if ps.len() == 0 {
        Err(ExportError::EmptyBuffer)
    } else {
        match export_start(ps, sat_sub(now, window_ms)) {
            Some(s) => Ok(ps.skip(s)),
            None => Err(ExportError::NoSyncPoint),
        }
    }
}

// ---------------------------------------------------------------------------
// Characterizations of the index-searching spec functions.
// ---------------------------------------------------------------------------

/// `first_at_or_after` returns the least index at or after the cutoff.
pub proof fn lemma_first_at_or_after(ps: Seq<PacketModel>, cutoff: u64)
    ensures
        match first_at_or_after(ps, cutoff) {
            Some(i) => 0 <= i < ps.len() && ps[i].timestamp >= cutoff && forall|j: int|
                0 <= j < i ==> ps[j].timestamp < cutoff,
            None => forall|j: int| 0 <= j < ps.len() ==> ps[j].timestamp < cutoff,
        },
    decreases ps.len(),
{
    if ps.len() > 0 && ps[0].timestamp < cutoff {
        lemma_first_at_or_after(ps.drop_first(), cutoff);
        assert forall|j: int| 0 <= j < ps.len() && ps[j].timestamp >= cutoff implies j >= 1 by {
        }
        match first_at_or_after(ps.drop_first(), cutoff) {
            Some(i) => {
                assert(ps.drop_first()[i] == ps[i + 1]);
                assert forall|j: int| 0 <= j < i + 1 implies ps[j].timestamp < cutoff by {
                    if j >= 1 {
                        assert(ps[j] == ps.drop_first()[j - 1]);
                    }
                }
            },
            None => {
                assert forall|j: int| 0 <= j < ps.len() implies ps[j].timestamp < cutoff by {
                    if j >= 1 {
                        assert(ps[j] == ps.drop_first()[j - 1]);
                    }
                }
            },
        }
    }
}

/// `last_sync_at_or_before` returns the greatest sync index at or before `i`.
pub proof fn lemma_last_sync_at_or_before(ps: Seq<PacketModel>, i: int)
    requires
        i < ps.len(),
    ensures
        match last_sync_at_or_before(ps, i) {
            Some(k) => 0 <= k <= i && ps[k].is_keyframe && forall|m: int|
                k < m <= i ==> !ps[m].is_keyframe,
            None => forall|m: int| 0 <= m <= i ==> !ps[m].is_keyframe,
        },
    decreases i + 1,
{
    if 0 <= i && !ps[i].is_keyframe {
        lemma_last_sync_at_or_before(ps, i - 1);
    }
}

/// `first_sync_at_or_after` returns the least sync index at or after `i`.
pub proof fn lemma_first_sync_at_or_after(ps: Seq<PacketModel>, i: int)
    requires
        0 <= i,
    ensures
        match first_sync_at_or_after(ps, i) {
            Some(s) => i <= s < ps.len() && ps[s].is_keyframe && forall|m: int|
                i <= m < s ==> !ps[m].is_keyframe,
            None => forall|m: int| i <= m < ps.len() ==> !ps[m].is_keyframe,
        },
    decreases ps.len() - i,
{
    if i < ps.len() && !ps[i].is_keyframe {
        lemma_first_sync_at_or_after(ps, i + 1);
    }
}

/// Payload sums are never negative.
pub proof fn lemma_sum_bytes_nonneg(ps: Seq<PacketModel>)
    ensures
        sum_bytes(ps) >= 0,
    decreases ps.len(),
{
    if ps.len() > 0 {
        lemma_sum_bytes_nonneg(ps.drop_first());
    }
}

/// Dropping the front packet removes exactly its payload from the sum.
pub proof fn lemma_sum_bytes_skip_one(ps: Seq<PacketModel>)
    requires
        ps.len() > 0,
    ensures
        sum_bytes(ps) == ps[0].data.len() + sum_bytes(ps.skip(1)),
{
    assert(ps.drop_first() =~= ps.skip(1));
}

/// Dropping the last packet removes exactly its payload from the sum.
pub proof fn lemma_sum_bytes_last(ps: Seq<PacketModel>)
    requires
        ps.len() > 0,
    ensures
        sum_bytes(ps) == sum_bytes(ps.drop_last()) + ps.last().data.len(),
    decreases ps.len(),
{
    if ps.len() == 1 {
        assert(ps.drop_first() =~= Seq::<PacketModel>::empty());
        assert(ps.drop_last() =~= Seq::<PacketModel>::empty());
    } else {
        lemma_sum_bytes_last(ps.drop_first());
        assert(ps.drop_first().drop_last() =~= ps.drop_last().drop_first());
        assert(ps.drop_first().last() == ps.last());
        assert(ps.drop_last()[0] == ps[0]);
    }
}

/// `budget_anchor` returns the least index whose suffix fits the budget.
pub proof fn lemma_budget_anchor(ps: Seq<PacketModel>, budget: u64)
    ensures
        0 <= budget_anchor(ps, budget) <= ps.len(),
        sum_bytes(ps.skip(budget_anchor(ps, budget))) <= budget,
        forall|m: int|
            0 <= m < budget_anchor(ps, budget) ==> sum_bytes(#[trigger] ps.skip(m)) > budget,
    decreases ps.len(),
{
    if sum_bytes(ps) <= budget {
        assert(ps.skip(0) =~= ps);
    } else {
        assert(ps.len() > 0) by {
            lemma_sum_bytes_nonneg(ps);
        }
        lemma_budget_anchor(ps.drop_first(), budget);
        let j = budget_anchor(ps, budget);
        assert(ps.drop_first() =~= ps.skip(1));
        assert(ps.skip(1).skip(j - 1) =~= ps.skip(j));
        assert forall|m: int| 0 <= m < j implies sum_bytes(#[trigger] ps.skip(m)) > budget by {
            if m == 0 {
                assert(ps.skip(0) =~= ps);
            } else {
                assert(ps.skip(1).skip(m - 1) =~= ps.skip(m));
            }
        }
    }
}


/// The mathematical image of a `ReplayBuffer`.
pub struct BufferModel {
    pub packets: Seq<PacketModel>,
    pub max_duration_ms: u64,
    pub byte_budget: Option<u64>,
    pub current_bytes: u64,
}

impl BufferModel {
    /// The buffer's internal invariant: the cached byte count is the true
    /// payload sum, and timestamps never decrease along the sequence.
    pub open spec fn wf(self) -> bool {
        &&& self.current_bytes == sum_bytes(self.packets)
        &&& ts_sorted(self.packets)
    }
}

/// The retained window of access units for one capture session.
///
/// Created once with a fixed retention configuration, mutated only by
/// `add_packet`, and read by `export`, which copies the selected slice out
/// instead of handing out references into the buffer.
pub struct ReplayBuffer {
    packets: Vec<TimestampedPacket>,
    max_duration_ms: u64,
    byte_budget: Option<u64>,
    current_bytes: u64,
}

impl View for ReplayBuffer {
    type V = BufferModel;

    closed spec fn view(&self) -> BufferModel {
        BufferModel {
            packets: models(self.packets@),
            max_duration_ms: self.max_duration_ms,
            byte_budget: self.byte_budget,
            current_bytes: self.current_bytes,
        }
    }
}

/// Finds the first packet captured at or after `cutoff`.
fn find_first_at_or_after(packets: &Vec<TimestampedPacket>, cutoff: u64) -> (r: Option<usize>)
    ensures
        match r {
            Some(i) => first_at_or_after(models(packets@), cutoff) == Some(i as int),
            None => first_at_or_after(models(packets@), cutoff) is None,
        },
{
    let ghost ps = models(packets@);
    proof {
        lemma_first_at_or_after(ps, cutoff);
    }
    let n = packets.len();
    let mut i: usize = 0;
    while i < n
        invariant
            i <= n == packets@.len(),
            ps == models(packets@),
            forall|j: int| 0 <= j < i ==> ps[j].timestamp < cutoff,
        decreases n - i,
    {
        if packets[i].timestamp >= cutoff {
            proof {
                lemma_first_at_or_after(ps, cutoff);
                assert(ps[i as int].timestamp >= cutoff);
            }
            return Some(i);
        }
        assert(ps[i as int].timestamp < cutoff);
        i = i + 1;
    }
    None
}

/// Finds the last sync point at or before position `i`.
fn find_last_sync_at_or_before(packets: &Vec<TimestampedPacket>, i: usize) -> (r: Option<usize>)
    requires
        i < packets@.len(),
    ensures
        match r {
            Some(k) => last_sync_at_or_before(models(packets@), i as int) == Some(k as int)
                && k <= i,
            None => last_sync_at_or_before(models(packets@), i as int) is None,
        },
{
    let ghost ps = models(packets@);
    proof {
        lemma_last_sync_at_or_before(ps, i as int);
    }
    let mut m: usize = i;
    let mut checked_all = false;
    while !checked_all
        invariant
            m <= i < packets@.len(),
            ps == models(packets@),
            forall|k: int| (if checked_all { 0int } else { m + 1 }) <= k <= i ==> !ps[k].is_keyframe,
        decreases (if checked_all { 0int } else { m + 1 }),
    {
        if packets[m].is_keyframe {
            proof {
                lemma_last_sync_at_or_before(ps, i as int);
                assert(ps[m as int].is_keyframe);
            }
            return Some(m);
        }
        assert(!ps[m as int].is_keyframe);
        if m == 0 {
            checked_all = true;
        } else {
            m = m - 1;
        }
    }
    proof {
        lemma_last_sync_at_or_before(ps, i as int);
    }
    None
}

/// Finds the first sync point at or after position `start`.
fn find_first_sync_at_or_after(packets: &Vec<TimestampedPacket>, start: usize) -> (r: Option<
    usize,
>)
    ensures
        match r {
            Some(s) => first_sync_at_or_after(models(packets@), start as int) == Some(s as int)
                && start <= s,
            None => first_sync_at_or_after(models(packets@), start as int) is None,
        },
{
    let ghost ps = models(packets@);
    proof {
        lemma_first_sync_at_or_after(ps, start as int);
    }
    let n = packets.len();
    let mut s: usize = start;
    while s < n
        invariant
            start <= s,
            n == packets@.len(),
            ps == models(packets@),
            forall|k: int| start <= k < s ==> !ps[k].is_keyframe,
        decreases n - s,
    {
        if packets[s].is_keyframe {
            proof {
                lemma_first_sync_at_or_after(ps, start as int);
                assert(ps[s as int].is_keyframe);
            }
            return Some(s);
        }
        assert(!ps[s as int].is_keyframe);
        s = s + 1;
    }
    None
}

impl ReplayBuffer {
    /// The buffer's internal invariant.
    pub open spec fn wf(&self) -> bool {
        self@.wf()
    }

    /// Creates an empty buffer that retains about `buffer_duration_secs`
    /// seconds of units.  The packet-count estimate only sizes the initial
    /// allocation and does not bound the buffer.
    pub fn new(buffer_duration_secs: u32, estimated_packets: usize) -> (r: Self)
        ensures
            r.wf(),
            r@.packets =~= Seq::<PacketModel>::empty(),
            r@.max_duration_ms == buffer_duration_secs as int * 1000,
            r@.byte_budget is None,
            r@.current_bytes == 0,
    {
        let r = ReplayBuffer {
            packets: Vec::with_capacity(estimated_packets),
            max_duration_ms: (buffer_duration_secs as u64) * 1000,
            byte_budget: None,
            current_bytes: 0,
        };
        proof {
            assert(models(r.packets@) =~= Seq::<PacketModel>::empty());
        }
        r
    }

    /// Configures an advisory byte budget; meant to be applied right after
    /// `new`, before the first ingest.
    pub fn with_byte_budget(self, budget: u64) -> (r: Self)
        ensures
            r@.packets == self@.packets,
            r@.max_duration_ms == self@.max_duration_ms,
            r@.byte_budget == Some(budget),
            r@.current_bytes == self@.current_bytes,
            self.wf() ==> r.wf(),
    {
        ReplayBuffer { byte_budget: Some(budget), ..self }
    }

    /// Number of retained units.
    pub fn packet_count(&self) -> (r: usize)
        ensures
            r == self@.packets.len(),
    {
        self.packets.len()
    }

    /// Cached total payload size; equals the true sum whenever `wf` holds.
    pub fn current_bytes(&self) -> (r: u64)
        ensures
            r == self@.current_bytes,
    {
        self.current_bytes
    }

    /// Removes the first `k` packets, keeping the byte accounting exact.
    fn evict_front(&mut self, k: usize)
        requires
            old(self).wf(),
            k <= old(self)@.packets.len(),
        ensures
            final(self).wf(),
            final(self)@.packets == old(self)@.packets.skip(k as int),
            final(self)@.max_duration_ms == old(self)@.max_duration_ms,
            final(self)@.byte_budget == old(self)@.byte_budget,
    {
        let ghost orig = models(self.packets@);
        let mut n: usize = 0;
        while n < k
            invariant
                n <= k <= orig.len(),
                models(self.packets@) == orig.skip(n as int),
                self.current_bytes == sum_bytes(models(self.packets@)),
                self.max_duration_ms == old(self)@.max_duration_ms,
                self.byte_budget == old(self)@.byte_budget,
            decreases k - n,
        {
            let ghost pre = self.packets@;
            let p = self.packets.remove(0);
            proof {
                let cur = orig.skip(n as int);
                lemma_sum_bytes_skip_one(cur);
                lemma_sum_bytes_nonneg(cur.skip(1));
                assert(models(pre)[0] == pre[0]@);
                assert(p@ == cur[0]);
                assert(models(self.packets@) =~= orig.skip(n + 1)) by {
                    assert(self.packets@ =~= pre.skip(1));
                    assert forall|j: int| 0 <= j < models(self.packets@).len() implies models(
                        self.packets@,
                    )[j] == orig.skip(n + 1)[j] by {
                        assert(models(self.packets@)[j] == pre.skip(1)[j]@);
                        assert(pre.skip(1)[j] == pre[j + 1]);
                        assert(models(pre)[j + 1] == pre[j + 1]@);
                        assert(cur[j + 1] == orig[n + 1 + j]);
                    }
                }
                assert(cur.skip(1) =~= orig.skip(n + 1));
            }
            self.current_bytes = self.current_bytes - (p.data.len() as u64);
            n = n + 1;
        }
        proof {
            // the untouched configuration fields keep the invariant's shape
            assert(ts_sorted(models(self.packets@))) by {
                assert forall|i: int, j: int|
                    0 <= i <= j < models(self.packets@).len() implies models(
                    self.packets@,
                )[i].timestamp <= models(self.packets@)[j].timestamp by {
                    assert(models(self.packets@)[i] == orig[k + i]);
                    assert(models(self.packets@)[j] == orig[k + j]);
                }
            }
        }
    }
}


impl ReplayBuffer {
    /// Appends a unit stamped `now_ms` and runs eviction: the retention
    /// window and, when configured, the byte budget, each snapped backward
    /// to the nearest preceding sync point.
    ///
    /// `now_ms` comes from the caller's monotonic clock, so it never runs
    /// backwards relative to units already in the buffer.
    pub fn add_packet(&mut self, data: Vec<u8>, is_keyframe: bool, now_ms: u64)
        requires
            old(self).wf(),
            forall|i: int|
                0 <= i < old(self)@.packets.len() ==> old(self)@.packets[i].timestamp <= now_ms,
            sum_bytes(old(self)@.packets) + data@.len() <= u64::MAX,
        ensures
            final(self).wf(),
            final(self)@.packets == ingested(
                old(self)@.packets,
                data@,
                is_keyframe,
                now_ms,
                old(self)@.max_duration_ms,
                old(self)@.byte_budget,
            ),
            final(self)@.max_duration_ms == old(self)@.max_duration_ms,
            final(self)@.byte_budget == old(self)@.byte_budget,
    {
        let ghost ps0 = models(self.packets@);
        let ghost unit = PacketModel { data: data@, timestamp: now_ms, is_keyframe };

        let added: u64 = data.len() as u64;
        self.packets.push(TimestampedPacket { data, timestamp: now_ms, is_keyframe });
        let ghost ps1 = models(self.packets@);
        proof {
            assert(ps1 =~= ps0.push(unit));
            lemma_sum_bytes_last(ps1);
            assert(ps1.drop_last() =~= ps0);
            assert(ps1.last() == unit);
            assert(ts_sorted(ps1)) by {
                assert forall|i: int, j: int|
                    0 <= i <= j < ps1.len() implies ps1[i].timestamp <= ps1[j].timestamp by {
                    if j < ps1.len() - 1 {
                        assert(ps1[i] == ps0[i] && ps1[j] == ps0[j]);
                    } else if i < j {
                        assert(ps1[i] == ps0[i]);
                    }
                }
            }
        }
        self.current_bytes = self.current_bytes + added;

        // retention eviction
        let cutoff: u64 = if now_ms >= self.max_duration_ms {
            now_ms - self.max_duration_ms
        } else {
            0
        };
        assert(cutoff == sat_sub(now_ms, self@.max_duration_ms));
        let anchor: usize = match find_first_at_or_after(&self.packets, cutoff) {
            Some(i) => i,
            None => self.packets.len() - 1,
        };
        proof {
            lemma_first_at_or_after(ps1, cutoff);
        }
        match find_last_sync_at_or_before(&self.packets, anchor) {
            Some(k) => {
                proof {
                    lemma_last_sync_at_or_before(ps1, anchor as int);
                }
                self.evict_front(k);
            },
            None => {},
        }
        let ghost ps2 = models(self.packets@);
        proof {
            assert(ps2 == time_evicted(ps1, cutoff));
        }

        // byte-budget eviction
        if let Some(b) = self.byte_budget {
            if self.current_bytes > b {
                proof {
                    assert(ps2.skip(0) =~= ps2);
                }
                let n = self.packets.len();
                let mut j: usize = 0;
                let mut acc: u64 = self.current_bytes;
                while acc > b
                    invariant
                        j <= n == ps2.len(),
                        ps2 == models(self.packets@),
                        acc == sum_bytes(ps2.skip(j as int)),
                        forall|m: int| 0 <= m < j ==> sum_bytes(#[trigger] ps2.skip(m)) > b,
                    decreases n - j,
                {
                    proof {
                        if j == n {
                            assert(ps2.skip(j as int) =~= Seq::<PacketModel>::empty());
                            assert(false);
                        }
                        lemma_sum_bytes_skip_one(ps2.skip(j as int));
                        assert(ps2.skip(j as int).skip(1) =~= ps2.skip(j + 1));
                        assert(ps2.skip(j as int)[0] == ps2[j as int]);
                        lemma_sum_bytes_nonneg(ps2.skip(j + 1));
                        assert(models(self.packets@)[j as int] == self.packets@[j as int]@);
                    }
                    let plen: u64 = self.packets[j].data.len() as u64;
                    acc = acc - plen;
                    j = j + 1;
                }
                proof {
                    lemma_budget_anchor(ps2, b);
                    assert(ps2.skip(0) =~= ps2);
                    assert(j == budget_anchor(ps2, b));
                }
                let anchor2: usize = if j >= self.packets.len() {
                    self.packets.len() - 1
                } else {
                    j
                };
                match find_last_sync_at_or_before(&self.packets, anchor2) {
                    Some(k2) => {
                        proof {
                            lemma_last_sync_at_or_before(ps2, anchor2 as int);
                        }
                        self.evict_front(k2);
                    },
                    None => {},
                }
            }
        }
        proof {
            assert(models(self.packets@) == budget_evicted(ps2, self.byte_budget));
        }
    }
}


/// Byte-for-byte copy of a payload, so exported units own their data
/// independently of buffer storage.
fn copy_bytes(v: &Vec<u8>) -> (r: Vec<u8>)
    ensures
        r@ == v@,
{
    let mut r: Vec<u8> = Vec::with_capacity(v.len());
    let n = v.len();
    let mut i: usize = 0;
    while i < n
        invariant
            i <= n == v@.len(),
            r@ == v@.take(i as int),
        decreases n - i,
    {
        r.push(v[i]);
        proof {
            assert(v@.take(i + 1) =~= v@.take(i as int).push(v@[i as int]));
        }
        i = i + 1;
    }
    proof {
        assert(v@.take(n as int) =~= v@);
    }
    r
}

/// How `exported` can turn out, stated over the spec model: success exactly
/// when the buffer is non-empty and holds a sync point, each error exactly
/// on its own condition, and every successful slice is a non-empty suffix
/// that starts at a sync point.
pub proof fn lemma_exported_cases(ps: Seq<PacketModel>, window_ms: u64, now: u64)
    ensures
        exported(ps, window_ms, now) is Ok <==> ps.len() > 0 && has_sync(ps),
        exported(ps, window_ms, now) == Err::<Seq<PacketModel>, ExportError>(
            ExportError::EmptyBuffer,
        ) <==> ps.len() == 0,
        exported(ps, window_ms, now) == Err::<Seq<PacketModel>, ExportError>(
            ExportError::NoSyncPoint,
        ) <==> ps.len() > 0 && !has_sync(ps),
        exported(ps, window_ms, now) matches Ok(s) ==> {
            &&& exists|k: int| 0 <= k < ps.len() && s == ps.skip(k) && ps[k].is_keyframe
            &&& s.len() > 0
            &&& s[0].is_keyframe
        },
{
    if ps.len() > 0 {
        let cutoff = sat_sub(now, window_ms);
        lemma_first_at_or_after(ps, cutoff);
        let w = match first_at_or_after(ps, cutoff) {
            Some(i) => i,
            None => 0,
        };
        lemma_first_sync_at_or_after(ps, w);
        lemma_last_sync_at_or_before(ps, ps.len() - 1);
        match export_start(ps, cutoff) {
            Some(s) => {
                assert(ps[s].is_keyframe);
                assert(ps.skip(s)[0] == ps[s]);
                assert(has_sync(ps));
            },
            None => {
                assert(forall|m: int| 0 <= m < ps.len() ==> !ps[m].is_keyframe);
            },
        }
    }
}

impl ReplayBuffer {
    /// Computes the keyframe-aligned slice covering roughly the trailing
    /// `window_ms` milliseconds, as of `now_ms`, and returns it as an owned
    /// snapshot.  Read-only: the buffer itself is untouched, so repeated
    /// calls with the same arguments return the same slice.
    pub fn export(&self, window_ms: u64, now_ms: u64) -> (r: Result<
        Vec<TimestampedPacket>,
        ExportError,
    >)
        ensures
            r is Ok <==> exported(self@.packets, window_ms, now_ms) is Ok,
            r matches Ok(v) ==> Ok::<Seq<PacketModel>, ExportError>(models(v@)) == exported(
                self@.packets,
                window_ms,
                now_ms,
            ),
            r matches Err(e) ==> Err::<Seq<PacketModel>, ExportError>(e) == exported(
                self@.packets,
                window_ms,
                now_ms,
            ),
            r matches Ok(v) ==> models(v@).len() > 0 && models(v@)[0].is_keyframe,
            r == Err::<Vec<TimestampedPacket>, ExportError>(ExportError::EmptyBuffer) <==> self@.packets.len() == 0,
            r == Err::<Vec<TimestampedPacket>, ExportError>(ExportError::NoSyncPoint) <==> (
            self@.packets.len() > 0 && !has_sync(self@.packets)),
    {
        let ghost ps = models(self.packets@);
        proof {
            lemma_exported_cases(ps, window_ms, now_ms);
        }
        if self.packets.len() == 0 {
            return Err(ExportError::EmptyBuffer);
        }
        let cutoff: u64 = if now_ms >= window_ms {
            now_ms - window_ms
        } else {
            0
        };
        assert(cutoff == sat_sub(now_ms, window_ms));
        let w: usize = match find_first_at_or_after(&self.packets, cutoff) {
            Some(i) => i,
            None => 0,
        };
        proof {
            lemma_first_at_or_after(ps, cutoff);
        }
        let start: usize = match find_first_sync_at_or_after(&self.packets, w) {
            Some(s) => s,
            None => {
                match find_last_sync_at_or_before(&self.packets, self.packets.len() - 1) {
                    Some(s) => s,
                    None => {
                        return Err(ExportError::NoSyncPoint);
                    },
                }
            },
        };
        proof {
            assert(export_start(ps, cutoff) == Some(start as int));
            lemma_first_sync_at_or_after(ps, w as int);
            lemma_last_sync_at_or_before(ps, ps.len() - 1);
            assert(start < ps.len());
        }
        let n = self.packets.len();
        let mut out: Vec<TimestampedPacket> = Vec::new();
        proof {
            assert(models(out@) =~= Seq::<PacketModel>::empty());
            assert(ps.subrange(start as int, start as int) =~= Seq::<PacketModel>::empty());
        }
        let mut i: usize = start;
        while i < n
            invariant
                start <= i <= n == self.packets@.len(),
                ps == models(self.packets@),
                models(out@) =~= ps.subrange(start as int, i as int),
            decreases n - i,
        {
            let p = &self.packets[i];
            let copied = TimestampedPacket {
                data: copy_bytes(&p.data),
                timestamp: p.timestamp,
                is_keyframe: p.is_keyframe,
            };
            proof {
                assert(models(self.packets@)[i as int] == self.packets@[i as int]@);
                assert(copied@ == ps[i as int]);
            }
            let ghost out_pre = out@;
            out.push(copied);
            proof {
                assert(models(out@) =~= models(out_pre).push(copied@));
                assert(models(out@) =~= ps.subrange(start as int, i + 1));
            }
            i = i + 1;
        }
        proof {
            assert(models(out@) =~= ps.skip(start as int));
        }
        Ok(out)
    }
}

/// The eviction rules keep the buffer anchored at a sync point: if the
/// buffer starts at a sync point before an ingest (or is still empty and
/// receives a sync unit), it starts at a sync point after the ingest, and
/// is non-empty.  Chained over a whole session, every reachable buffer
/// state whose first-ever unit was a sync point begins with one.
pub proof fn lemma_ingest_keeps_sync_start(
    ps: Seq<PacketModel>,
    data: Seq<u8>,
    is_keyframe: bool,
    now: u64,
    retention_ms: u64,
    budget: Option<u64>,
)
    requires
        starts_at_sync(ps),
        ps.len() == 0 ==> is_keyframe,
    ensures
        ingested(ps, data, is_keyframe, now, retention_ms, budget).len() > 0,
        starts_at_sync(ingested(ps, data, is_keyframe, now, retention_ms, budget)),
{
    let unit = PacketModel { data, timestamp: now, is_keyframe };
    let ps1 = ps.push(unit);
    let cutoff = sat_sub(now, retention_ms);
    assert(ps1[0].is_keyframe);
    lemma_first_at_or_after(ps1, cutoff);
    let anchor = match first_at_or_after(ps1, cutoff) {
        Some(i) => i,
        None => ps1.len() - 1,
    };
    lemma_last_sync_at_or_before(ps1, anchor);
    let ps2 = time_evicted(ps1, cutoff);
    match last_sync_at_or_before(ps1, anchor) {
        Some(k) => {
            assert(ps2 == ps1.skip(k));
            assert(ps2[0] == ps1[k]);
        },
        None => {
            assert(!ps1[0].is_keyframe);
        },
    }
    assert(ps2.len() > 0 && ps2[0].is_keyframe);
    match budget {
        None => {},
        Some(b) => {
            if sum_bytes(ps2) > b {
                lemma_budget_anchor(ps2, b);
                let j = budget_anchor(ps2, b);
                let anchor2 = if j >= ps2.len() {
                    ps2.len() - 1
                } else {
                    j
                };
                lemma_last_sync_at_or_before(ps2, anchor2);
                match last_sync_at_or_before(ps2, anchor2) {
                    Some(k2) => {
                        assert(budget_evicted(ps2, budget) == ps2.skip(k2));
                        assert(ps2.skip(k2)[0] == ps2[k2]);
                    },
                    None => {
                        assert(!ps2[0].is_keyframe);
                    },
                }
            }
        },
    }
}

/// One recorded ingest call: the unit's payload and classification, and
/// the clock reading at which it arrived.
pub struct IngestOp {
    pub data: Seq<u8>,
    pub is_keyframe: bool,
    pub now: u64,
}

/// The packet sequence after a whole run of ingest calls.
pub open spec fn ingested_all(
    ps: Seq<PacketModel>,
    ops: Seq<IngestOp>,
    retention_ms: u64,
    budget: Option<u64>,
) -> Seq<PacketModel>
    decreases ops.len(),
{
    if ops.len() == 0 {
        ps
    } else {
        ingested_all(
            ingested(ps, ops[0].data, ops[0].is_keyframe, ops[0].now, retention_ms, budget),
            ops.drop_first(),
            retention_ms,
            budget,
        )
    }
}

/// The eviction invariant over a whole session: a buffer that starts at a
/// sync point (in particular an empty one whose first ingested unit is a
/// sync point, as an encoder stream opening with a keyframe delivers)
/// still starts at a sync point after any sequence of ingest calls, and is
/// non-empty once anything was ingested.  An encoder that never leads with
/// a sync unit is the one input left out: a lone non-keyframe ingested
/// into an empty buffer stands at the front with nothing to snap to.
pub proof fn lemma_session_starts_at_sync(
    ps: Seq<PacketModel>,
    ops: Seq<IngestOp>,
    retention_ms: u64,
    budget: Option<u64>,
)
    requires
        starts_at_sync(ps),
        ps.len() == 0 && ops.len() > 0 ==> ops[0].is_keyframe,
    ensures
        starts_at_sync(ingested_all(ps, ops, retention_ms, budget)),
        ps.len() > 0 || ops.len() > 0 ==> ingested_all(ps, ops, retention_ms, budget).len() > 0,
    decreases ops.len(),
{
    if ops.len() > 0 {
        lemma_ingest_keeps_sync_start(
            ps,
            ops[0].data,
            ops[0].is_keyframe,
            ops[0].now,
            retention_ms,
            budget,
        );
        lemma_session_starts_at_sync(
            ingested(ps, ops[0].data, ops[0].is_keyframe, ops[0].now, retention_ms, budget),
            ops.drop_first(),
            retention_ms,
            budget,
        );
    }
}

/// Export is a pure read: its outcome is a function of the buffer contents
/// and the arguments alone, so two export calls over the same state with no
/// ingest in between return identical slices.
pub proof fn lemma_export_idempotent(
    ps1: Seq<PacketModel>,
    ps2: Seq<PacketModel>,
    window_ms: u64,
    now: u64,
)
    requires
        ps1 == ps2,
    ensures
        exported(ps1, window_ms, now) == exported(ps2, window_ms, now),
{
}

} // verus!
