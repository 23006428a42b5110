use vstd::prelude::*;
use vstd::string::StrSliceExecFns;

verus! {

/// Attempts after which a timestamp that keeps failing is dropped.
pub const MAX_PENDING_ATTEMPTS: u32 = 20;

/// How many ingested timestamps are remembered to refuse their re-enqueue.
pub const RECENT_TIMESTAMP_CAPACITY: usize = 512;

/// Lexicographic order of texts: negative, zero or positive as `a` sorts
/// before, equal to or after `b`.
pub open spec fn text_cmp(a: Seq<char>, b: Seq<char>) -> int
    decreases a.len(),
{
    if a.len() == 0 {
        if b.len() == 0 {
            0
        } else {
            -1
        }
    } else if b.len() == 0 {
        1
    } else if a[0] < b[0] {
        -1
    } else if a[0] > b[0] {
        1
    } else {
        text_cmp(a.drop_first(), b.drop_first())
    }
}

pub open spec fn text_le(a: Seq<char>, b: Seq<char>) -> bool {
    text_cmp(a, b) <= 0
}

proof fn lemma_text_cmp_suffix(a: Seq<char>, b: Seq<char>, i: int)
    requires
        0 <= i <= a.len(),
        i <= b.len(),
        a.subrange(0, i) == b.subrange(0, i),
    ensures
        text_cmp(a, b) == text_cmp(a.subrange(i, a.len() as int), b.subrange(i, b.len() as int)),
    decreases i,
{
    if i > 0 {
        assert(a[0] == a.subrange(0, i)[0]);
        assert(b[0] == b.subrange(0, i)[0]);
        let a1 = a.drop_first();
        let b1 = b.drop_first();
        assert(a1.subrange(0, i - 1) =~= a.subrange(1, i));
        assert(b1.subrange(0, i - 1) =~= b.subrange(1, i));
        assert(a.subrange(1, i) =~= a.subrange(0, i).drop_first());
        assert(b.subrange(1, i) =~= b.subrange(0, i).drop_first());
        lemma_text_cmp_suffix(a1, b1, i - 1);
        assert(a1.subrange(i - 1, a1.len() as int) =~= a.subrange(i, a.len() as int));
        assert(b1.subrange(i - 1, b1.len() as int) =~= b.subrange(i, b.len() as int));
    } else {
        assert(a.subrange(0, a.len() as int) =~= a);
        assert(b.subrange(0, b.len() as int) =~= b);
    }
}

/// Compares two texts character by character.
pub fn compare_text(a: &str, b: &str) -> (r: i8)
    ensures
        r as int == text_cmp(a@, b@),
        -1 <= r <= 1,
{
    let n = a.unicode_len();
    let m = b.unicode_len();
    let mut i: usize = 0;
    while i < n && i < m
        invariant
            n == a@.len(),
            m == b@.len(),
            0 <= i <= n,
            i <= m,
            a@.subrange(0, i as int) == b@.subrange(0, i as int),
        decreases n - i,
    {
        let ca = a.get_char(i);
        let cb = b.get_char(i);
        if ca != cb {
            proof {
                lemma_text_cmp_suffix(a@, b@, i as int);
                assert(a@.subrange(i as int, n as int)[0] == ca);
                assert(b@.subrange(i as int, m as int)[0] == cb);
            }
            if ca < cb {
                return -1;
            } else {
                return 1;
            }
        }
        i = i + 1;
        assert(a@.subrange(0, i as int) =~= b@.subrange(0, i as int));
    }
    proof {
        lemma_text_cmp_suffix(a@, b@, i as int);
    }
    if i < n {
        1
    } else if i < m {
        -1
    } else {
        0
    }
}

/// A timestamp waiting for an ingest attempt; times are milliseconds of a
/// monotonic clock.
#[derive(Clone, Copy, Debug, PartialEq, Eq, Structural)]
pub struct PendingIngest {
    pub attempts: u32,
    pub next_attempt_at_ms: u64,
}

/// A pending timestamp with its attempt record.
pub struct PendingEntry {
    pub timestamp: String,
    pub ingest: PendingIngest,
}

/// The scheduler's state: pending timestamps (each at most once), recently
/// ingested timestamps (oldest first), and the published timestamp.
pub struct SchedulerState {
    pub pending: Vec<PendingEntry>,
    pub recent: Vec<String>,
    pub latest: Option<String>,
}

pub open spec fn recent_contains(r: Seq<String>, t: Seq<char>) -> bool {
    exists|i: int| 0 <= i < r.len() && (#[trigger] r[i])@ == t
}

impl SchedulerState {
    /// Pending timestamps are distinct and the remembered set is bounded.
    pub open spec fn wf(&self) -> bool {
        &&& forall|i: int, j: int|
            0 <= i < j < self.pending@.len() ==> (#[trigger] self.pending@[i]).timestamp@
                != (#[trigger] self.pending@[j]).timestamp@
        &&& self.recent@.len() <= RECENT_TIMESTAMP_CAPACITY
    }

    /// An empty scheduler with `latest` published.
    pub fn new(latest: Option<String>) -> (r: Self)
        ensures
            r.wf(),
            r.pending@.len() == 0,
            r.recent@.len() == 0,
            r.latest == latest,
    {
        SchedulerState { pending: Vec::new(), recent: Vec::new(), latest }
    }

    /// Index of the pending entry of `timestamp`, if any.
    pub fn find_pending(&self, timestamp: &str) -> (r: Option<usize>)
        ensures
            match r {
                Some(i) => i < self.pending@.len() && self.pending@[i as int].timestamp@ == timestamp@,
                None => forall|i: int|
                    0 <= i < self.pending@.len() ==> (#[trigger] self.pending@[i]).timestamp@ != timestamp@,
            },
    {
        let mut i: usize = 0;
        while i < self.pending.len()
            invariant
                0 <= i <= self.pending@.len(),
                forall|k: int| 0 <= k < i ==> (#[trigger] self.pending@[k]).timestamp@ != timestamp@,
            decreases self.pending@.len() - i,
        {
            if compare_text(self.pending[i].timestamp.as_str(), timestamp) == 0 {
                proof {
                    lemma_text_cmp_zero_eq(self.pending@[i as int].timestamp@, timestamp@);
                }
                return Some(i);
            }
            proof {
                lemma_text_cmp_eq_zero(self.pending@[i as int].timestamp@, timestamp@);
            }
            i = i + 1;
        }
        None
    }

    /// The timestamp was ingested lately.
    pub fn is_recent(&self, timestamp: &str) -> (r: bool)
        ensures
            r == recent_contains(self.recent@, timestamp@),
    {
        let mut i: usize = 0;
        while i < self.recent.len()
            invariant
                0 <= i <= self.recent@.len(),
                forall|k: int| 0 <= k < i ==> (#[trigger] self.recent@[k])@ != timestamp@,
            decreases self.recent@.len() - i,
        {
            if compare_text(self.recent[i].as_str(), timestamp) == 0 {
                proof {
                    lemma_text_cmp_zero_eq(self.recent@[i as int]@, timestamp@);
                }
                return true;
            }
            proof {
                lemma_text_cmp_eq_zero(self.recent@[i as int]@, timestamp@);
            }
            i = i + 1;
        }
        false
    }

    /// Queues `timestamp` for ingest at `now_ms`. Nothing happens to one at or
    /// before the published timestamp, nor to one ingested lately; one already
    /// pending becomes due now and keeps its attempt count.
    pub fn enqueue_timestamp(&mut self, timestamp: &str, now_ms: u64)
        requires
            old(self).wf(),
        ensures
            final(self).wf(),
            final(self).recent@ == old(self).recent@,
            final(self).latest == old(self).latest,
            ({
                let skip = (old(self).latest matches Some(l) && text_le(timestamp@, l@)) || recent_contains(
                    old(self).recent@,
                    timestamp@,
                );
                let p = old(self).pending@;
                let q = final(self).pending@;
                if skip {
                    q == p
                } else if exists|i: int| 0 <= i < p.len() && (#[trigger] p[i]).timestamp@ == timestamp@ {
                    &&& q.len() == p.len()
                    &&& forall|i: int|
                        0 <= i < p.len() ==> if (#[trigger] p[i]).timestamp@ == timestamp@ {
                            q[i].timestamp@ == p[i].timestamp@ && q[i].ingest.attempts == p[i].ingest.attempts
                                && q[i].ingest.next_attempt_at_ms == now_ms
                        } else {
                            q[i] == p[i]
                        }
                } else {
                    &&& q.len() == p.len() + 1
                    &&& q.subrange(0, p.len() as int) == p
                    &&& q[p.len() as int].timestamp@ == timestamp@
                    &&& q[p.len() as int].ingest.attempts == 0
                    &&& q[p.len() as int].ingest.next_attempt_at_ms == now_ms
                }
            }),
    {
        if let Some(latest) = &self.latest {
            if compare_text(timestamp, latest.as_str()) <= 0 {
                return;
            }
        }
        if self.is_recent(timestamp) {
            return;
        }
        match self.find_pending(timestamp) {
            Some(i) => {
                let ghost p = self.pending@;
                let entry = PendingEntry {
                    timestamp: self.pending[i].timestamp.clone(),
                    ingest: PendingIngest { attempts: self.pending[i].ingest.attempts, next_attempt_at_ms: now_ms },
                };
                self.pending.set(i, entry);
                proof {
                    assert forall|k: int| 0 <= k < p.len() && k != i implies (#[trigger] p[k]).timestamp@
                        != timestamp@ by {
                        if k < i {
                            assert(p[k].timestamp@ != p[i as int].timestamp@);
                        } else {
                            assert(p[i as int].timestamp@ != p[k].timestamp@);
                        }
                    }
                    assert forall|a: int, b: int|
                        0 <= a < b < self.pending@.len() implies (#[trigger] self.pending@[a]).timestamp@
                        != (#[trigger] self.pending@[b]).timestamp@ by {
                        assert(p[a].timestamp@ != p[b].timestamp@);
                    }
                }
            },
            None => {
                let ghost p = self.pending@;
                self.pending.push(
                    PendingEntry { timestamp: String::from_str(timestamp), ingest: PendingIngest { attempts: 0, next_attempt_at_ms: now_ms } },
                );
                proof {
                    assert(self.pending@.subrange(0, p.len() as int) =~= p);
                    assert forall|a: int, b: int|
                        0 <= a < b < self.pending@.len() implies (#[trigger] self.pending@[a]).timestamp@
                        != (#[trigger] self.pending@[b]).timestamp@ by {
                        if b < p.len() {
                            assert(p[a].timestamp@ != p[b].timestamp@);
                        } else {
                            assert(self.pending@[a] == p[a]);
                        }
                    }
                }
            },
        }
    }
}

impl SchedulerState {
    /// Takes out the due entry (due at or before `now_ms`) with the greatest
    /// timestamp, if any is due.
    pub fn take_due(&mut self, now_ms: u64) -> (r: Option<PendingEntry>)
        requires
            old(self).wf(),
        ensures
            final(self).wf(),
            final(self).recent@ == old(self).recent@,
            final(self).latest == old(self).latest,
            ({
                let p = old(self).pending@;
                match r {
                    None => final(self).pending@ == p && forall|i: int|
                        0 <= i < p.len() ==> (#[trigger] p[i]).ingest.next_attempt_at_ms > now_ms,
                    Some(e) => exists|i: int|
                        0 <= i < p.len() && #[trigger] p[i] == e && e.ingest.next_attempt_at_ms <= now_ms
                            && final(self).pending@ == p.remove(i) && forall|j: int|
                            0 <= j < p.len() && (#[trigger] p[j]).ingest.next_attempt_at_ms <= now_ms
                                ==> text_le(p[j].timestamp@, e.timestamp@),
                }
            }),
    {
        let mut best: Option<usize> = None;
        let mut i: usize = 0;
        while i < self.pending.len()
            invariant
                0 <= i <= self.pending@.len(),
                match best {
                    None => forall|k: int|
                        0 <= k < i ==> (#[trigger] self.pending@[k]).ingest.next_attempt_at_ms > now_ms,
                    Some(b) => b < i && self.pending@[b as int].ingest.next_attempt_at_ms <= now_ms && forall|k: int|
                        0 <= k < i && (#[trigger] self.pending@[k]).ingest.next_attempt_at_ms <= now_ms
                            ==> text_le(self.pending@[k].timestamp@, self.pending@[b as int].timestamp@),
                },
            decreases self.pending@.len() - i,
        {
            if self.pending[i].ingest.next_attempt_at_ms <= now_ms {
                match best {
                    None => {
                        best = Some(i);
                        proof {
                            lemma_text_le_refl(self.pending@[i as int].timestamp@);
                        }
                    },
                    Some(b) => {
                        let c = compare_text(self.pending[i].timestamp.as_str(), self.pending[b].timestamp.as_str());
                        if c > 0 {
                            proof {
                                lemma_text_le_refl(self.pending@[i as int].timestamp@);
                                assert forall|k: int|
                                    0 <= k < i + 1 && (#[trigger] self.pending@[k]).ingest.next_attempt_at_ms <= now_ms implies text_le(
                                    self.pending@[k].timestamp@,
                                    self.pending@[i as int].timestamp@,
                                ) by {
                                    if k < i {
                                        lemma_text_cmp_antisym(self.pending@[i as int].timestamp@, self.pending@[b as int].timestamp@);
                                        lemma_text_le_trans(
                                            self.pending@[k].timestamp@,
                                            self.pending@[b as int].timestamp@,
                                            self.pending@[i as int].timestamp@,
                                        );
                                    }
                                }
                            }
                            best = Some(i);
                        }
                    },
                }
            }
            i = i + 1;
        }
        match best {
            None => None,
            Some(b) => {
                let ghost p = self.pending@;
                let e = self.pending.remove(b);
                proof {
                    assert forall|x: int, y: int|
                        0 <= x < y < self.pending@.len() implies (#[trigger] self.pending@[x]).timestamp@
                        != (#[trigger] self.pending@[y]).timestamp@ by {
                        let x0 = if x < b { x } else { x + 1 };
                        let y0 = if y < b { y } else { y + 1 };
                        assert(self.pending@[x] == p[x0]);
                        assert(self.pending@[y] == p[y0]);
                        assert(p[x0].timestamp@ != p[y0].timestamp@);
                    }
                }
                Some(e)
            },
        }
    }

    /// Records a successful ingest of `timestamp`: it is published unless the
    /// published one sorts after it, it is remembered (the oldest memory is dropped past the capacity), and every
    /// pending timestamp at or before it is dropped.
    pub fn record_success(&mut self, timestamp: &str)
        requires
            old(self).wf(),
        ensures
            final(self).wf(),
            match old(self).latest {
                Some(l) if text_cmp(timestamp@, l@) < 0 => final(self).latest == old(self).latest,
                _ => final(self).latest matches Some(n) && n@ == timestamp@,
            },
            recent_contains(final(self).recent@, timestamp@),
            forall|i: int|
                0 <= i < final(self).pending@.len() ==> text_cmp(
                    (#[trigger] final(self).pending@[i]).timestamp@,
                    timestamp@,
                ) > 0,
            forall|i: int|
                0 <= i < old(self).pending@.len() && text_cmp(
                    (#[trigger] old(self).pending@[i]).timestamp@,
                    timestamp@,
                ) > 0 ==> exists|j: int|
                    0 <= j < final(self).pending@.len() && #[trigger] final(self).pending@[j]
                        == old(self).pending@[i],
    {
        let publish = match &self.latest {
            Some(l) => compare_text(timestamp, l.as_str()) >= 0,
            None => true,
        };
        if publish {
            self.latest = Some(String::from_str(timestamp));
        }
        if !self.is_recent(timestamp) {
            let ghost r0 = self.recent@;
            self.recent.push(String::from_str(timestamp));
            assert(self.recent@[r0.len() as int]@ == timestamp@);
            if self.recent.len() > RECENT_TIMESTAMP_CAPACITY {
                let ghost r1 = self.recent@;
                self.recent.remove(0);
                assert(self.recent@[self.recent@.len() - 1] == r1[r1.len() - 1]);
            }
        }
        let ghost p = self.pending@;
        let mut kept: Vec<PendingEntry> = Vec::new();
        let mut old_pending = Vec::new();
        std::mem::swap(&mut old_pending, &mut self.pending);
        let n = old_pending.len();
        let mut i: usize = 0;
        let mut placeholder = PendingEntry { timestamp: String::new(), ingest: PendingIngest { attempts: 0, next_attempt_at_ms: 0 } };
        while i < n
            invariant
                n == p.len(),
                old_pending@.len() == n,
                0 <= i <= n,
                forall|k: int| i <= k < n ==> #[trigger] old_pending@[k] == p[k],
                forall|a: int, b: int|
                    0 <= a < b < p.len() ==> (#[trigger] p[a]).timestamp@ != (#[trigger] p[b]).timestamp@,
                forall|k: int| 0 <= k < kept@.len() ==> text_cmp((#[trigger] kept@[k]).timestamp@, timestamp@) > 0,
                forall|k: int| #![trigger kept@[k]] 0 <= k < kept@.len() ==> exists|j: int| 0 <= j < i && #[trigger] p[j] == kept@[k],
                forall|a: int, b: int|
                    0 <= a < b < kept@.len() ==> (#[trigger] kept@[a]).timestamp@ != (#[trigger] kept@[b]).timestamp@,
                forall|k: int|
                    0 <= k < i && text_cmp((#[trigger] p[k]).timestamp@, timestamp@) > 0 ==> exists|j: int|
                        0 <= j < kept@.len() && #[trigger] kept@[j] == p[k],
            decreases n - i,
        {
            let keep = compare_text(old_pending[i].timestamp.as_str(), timestamp) > 0;
            let ghost before = old_pending@;
            let ghost kept_before = kept@;
            std::mem::swap(&mut old_pending[i], &mut placeholder);
            let entry = placeholder;
            placeholder = PendingEntry { timestamp: String::new(), ingest: PendingIngest { attempts: 0, next_attempt_at_ms: 0 } };
            assert(entry == p[i as int]);
            if keep {
                kept.push(entry);
                proof {
                    assert forall|k: int| #![trigger kept@[k]] 0 <= k < kept@.len() implies exists|j: int| 0 <= j < i + 1 && #[trigger] p[j] == kept@[k] by {
                        if k < kept_before.len() {
                            assert(kept@[k] == kept_before[k]);
                        } else {
                            assert(p[i as int] == kept@[k]);
                        }
                    }
                    assert forall|a: int, b: int|
                        0 <= a < b < kept@.len() implies (#[trigger] kept@[a]).timestamp@ != (#[trigger] kept@[b]).timestamp@ by {
                        if b == kept_before.len() {
                            assert(kept@[a] == kept_before[a]);
                            let ja = choose|j: int| 0 <= j < i && #[trigger] p[j] == kept_before[a];
                            assert(p[ja].timestamp@ != p[i as int].timestamp@);
                        } else {
                            assert(kept@[a] == kept_before[a]);
                            assert(kept@[b] == kept_before[b]);
                        }
                    }
                    assert forall|k: int|
                        0 <= k < i + 1 && text_cmp((#[trigger] p[k]).timestamp@, timestamp@) > 0 implies exists|j: int|
                            0 <= j < kept@.len() && #[trigger] kept@[j] == p[k] by {
                        if k < i {
                            let j = choose|j: int| 0 <= j < kept_before.len() && #[trigger] kept_before[j] == p[k];
                            assert(kept@[j] == kept_before[j]);
                        } else {
                            assert(kept@[kept_before.len() as int] == p[k]);
                        }
                    }
                }
            }
            proof {
                assert forall|k: int| i < k < n implies #[trigger] old_pending@[k] == p[k] by {
                    assert(old_pending@[k] == before[k]);
                }
            }
            i = i + 1;
        }
        self.pending = kept;
    }

    /// Records a failed attempt of `entry`: it is queued again, due after
    /// `retry_delay_ms`, unless it has used up its attempts.
    pub fn record_failure(&mut self, entry: PendingEntry, now_ms: u64, retry_delay_ms: u64)
        requires
            old(self).wf(),
        ensures
            final(self).wf(),
            final(self).recent@ == old(self).recent@,
            final(self).latest == old(self).latest,
            entry.ingest.attempts as int + 1 >= MAX_PENDING_ATTEMPTS ==> final(self).pending@ == old(self).pending@,
            entry.ingest.attempts as int + 1 < MAX_PENDING_ATTEMPTS ==> exists|i: int|
                0 <= i < final(self).pending@.len() && (#[trigger] final(self).pending@[i]).timestamp@
                    == entry.timestamp@ && final(self).pending@[i].ingest.attempts == entry.ingest.attempts + 1
                    && final(self).pending@[i].ingest.next_attempt_at_ms as int == if now_ms as int
                    + retry_delay_ms as int > u64::MAX {
                    u64::MAX as int
                } else {
                    now_ms as int + retry_delay_ms as int
                },
    {
        if entry.ingest.attempts >= MAX_PENDING_ATTEMPTS - 1 {
            return;
        }
        let next_attempt_at_ms = if now_ms > u64::MAX - retry_delay_ms {
            u64::MAX
        } else {
            now_ms + retry_delay_ms
        };
        let retried = PendingEntry {
            timestamp: entry.timestamp,
            ingest: PendingIngest { attempts: entry.ingest.attempts + 1, next_attempt_at_ms },
        };
        let ghost p = self.pending@;
        match self.find_pending(retried.timestamp.as_str()) {
            Some(i) => {
                self.pending.set(i, retried);
                proof {
                    assert forall|a: int, b: int|
                        0 <= a < b < self.pending@.len() implies (#[trigger] self.pending@[a]).timestamp@
                        != (#[trigger] self.pending@[b]).timestamp@ by {
                        assert(p[a].timestamp@ != p[b].timestamp@);
                    }
                    assert(self.pending@[i as int].timestamp@ == entry.timestamp@);
                }
            },
            None => {
                self.pending.push(retried);
                proof {
                    assert forall|a: int, b: int|
                        0 <= a < b < self.pending@.len() implies (#[trigger] self.pending@[a]).timestamp@
                        != (#[trigger] self.pending@[b]).timestamp@ by {
                        if b < p.len() {
                            assert(p[a].timestamp@ != p[b].timestamp@);
                        } else {
                            assert(self.pending@[a] == p[a]);
                        }
                    }
                    assert(self.pending@[p.len() as int].timestamp@ == entry.timestamp@);
                }
            },
        }
    }
}

proof fn lemma_text_le_refl(a: Seq<char>)
    ensures
        text_le(a, a),
{
    lemma_text_cmp_eq_zero(a, a);
}

proof fn lemma_text_cmp_antisym(a: Seq<char>, b: Seq<char>)
    ensures
        text_cmp(a, b) > 0 ==> text_cmp(b, a) < 0,
        text_cmp(a, b) < 0 ==> text_cmp(b, a) > 0,
    decreases a.len(),
{
    if a.len() > 0 && b.len() > 0 && a[0] == b[0] {
        lemma_text_cmp_antisym(a.drop_first(), b.drop_first());
    }
}

proof fn lemma_text_le_trans(a: Seq<char>, b: Seq<char>, c: Seq<char>)
    requires
        text_le(a, b),
        text_cmp(b, c) < 0,
    ensures
        text_le(a, c),
    decreases a.len(),
{
    if a.len() > 0 && b.len() > 0 && c.len() > 0 && a[0] == b[0] && b[0] == c[0] {
        lemma_text_le_trans(a.drop_first(), b.drop_first(), c.drop_first());
    }
}

pub(crate) proof fn lemma_text_cmp_zero_eq(a: Seq<char>, b: Seq<char>)
    requires
        text_cmp(a, b) == 0,
    ensures
        a == b,
    decreases a.len(),
{
    if a.len() > 0 && b.len() > 0 {
        lemma_text_cmp_zero_eq(a.drop_first(), b.drop_first());
        assert(a =~= seq![a[0]] + a.drop_first());
        assert(b =~= seq![b[0]] + b.drop_first());
    } else {
        assert(a =~= b);
    }
}

pub(crate) proof fn lemma_text_cmp_eq_zero(a: Seq<char>, b: Seq<char>)
    ensures
        a == b ==> text_cmp(a, b) == 0,
    decreases a.len(),
{
    if a == b && a.len() > 0 {
        lemma_text_cmp_eq_zero(a.drop_first(), b.drop_first());
    }
}

} // verus!
