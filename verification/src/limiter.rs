//! A per-key sliding-window rate limiter.
//!
//! The limiter owns a mapping from an opaque string key to a record of the
//! timestamps of recently admitted events. A query prunes the record to the
//! trailing window ending at the observed time, rejects when the pruned
//! record has already reached the limit, and otherwise appends the observed
//! time and admits. Time is a plain count of nanoseconds on a monotonic
//! clock; the caller observes the clock and passes the reading in.

use vstd::prelude::*;

verus! {

/// One key's record: the timestamps of recently admitted events, oldest
/// first, as read on a monotonic clock.
pub struct KeyRecord {
    pub key: String,
    pub times: Vec<u64>,
}

/// Sliding-window rate limiter state: a mapping from key to window record,
/// held as an association list that is looked up by first match. An absent
/// key is equivalent to a key with an empty record.
pub struct IpRateLimiter {
    pub entries: Vec<KeyRecord>,
}

/// Timestamp `t` lies in the trailing window of length `window` ending at
/// `now`. The boundary is inclusive: `now - t == window` is in the window.
/// A timestamp later than `now` counts as elapsed time zero, hence in the
/// window, matching a saturating monotonic-clock difference.
pub open spec fn in_window(now: u64, t: u64, window: u64) -> bool {
    now - t <= window
}

/// The record `r` pruned to the timestamps in the trailing window.
pub open spec fn pruned(r: Seq<u64>, window: u64, now: u64) -> Seq<u64> {
    r.filter(|t: u64| in_window(now, t, window))
}

/// Whether a query at `now` against record `r` admits the event: the pruned
/// record must hold strictly fewer than `max_requests` timestamps.
pub open spec fn admits(r: Seq<u64>, max_requests: usize, window: u64, now: u64) -> bool {
    pruned(r, window, now).len() < max_requests
}

/// The record after a query at `now`: pruned in either case, and extended
/// with `now` exactly when the query admits.
pub open spec fn next_record(r: Seq<u64>, max_requests: usize, window: u64, now: u64) -> Seq<u64> {
    if admits(r, max_requests, window, now) {
        pruned(r, window, now).push(now)
    } else {
        pruned(r, window, now)
    }
}

/// The record associated with key `k` in entry list `s`: the first entry
/// whose key matches, or the empty record when none does.
pub open spec fn record_in(s: Seq<KeyRecord>, k: Seq<char>) -> Seq<u64>
    decreases s.len(),
{
    if s.len() == 0 {
        Seq::<u64>::empty()
    } else if s[0].key@ == k {
        s[0].times@
    } else {
        record_in(s.subrange(1, s.len() as int), k)
    }
}

/// Appending an entry changes only the record of the new entry's key, and
/// that only when the key was absent before.
proof fn lemma_record_in_push(s: Seq<KeyRecord>, rec: KeyRecord, k: Seq<char>)
    ensures
        record_in(s.push(rec), k) == if k == rec.key@ && (forall|i: int|
            0 <= i < s.len() ==> s[i].key@ != k) {
            rec.times@
        } else {
            record_in(s, k)
        },
    decreases s.len(),
{
    if s.len() == 0 {
        assert(s.push(rec)[0] == rec);
        assert(s.push(rec).subrange(1, 1) =~= Seq::<KeyRecord>::empty());
        assert(record_in(Seq::<KeyRecord>::empty(), k) == Seq::<u64>::empty());
        if k == rec.key@ {
            assert(record_in(s.push(rec), k) == rec.times@);
        } else {
            assert(record_in(s.push(rec), k) == record_in(s, k));
        }
    } else {
        let sub = s.subrange(1, s.len() as int);
        assert(s.push(rec)[0] == s[0]);
        assert(s.push(rec).subrange(1, s.len() as int + 1) =~= sub.push(rec));
        lemma_record_in_push(sub, rec, k);
        assert(forall|i: int| 0 <= i < sub.len() ==> sub[i] == s[i + 1]);
        if s[0].key@ == k {
            assert(0 <= 0 < s.len() && s[0].key@ == k);
            assert(!(forall|i: int| 0 <= i < s.len() ==> s[i].key@ != k));
        } else if k == rec.key@ {
            if forall|i: int| 0 <= i < s.len() ==> s[i].key@ != k {
                assert(forall|i: int| 0 <= i < sub.len() ==> sub[i].key@ != k);
            } else {
                let i0 = choose|i: int| 0 <= i < s.len() && s[i].key@ == k;
                assert(sub[i0 - 1].key@ == k);
                assert(!(forall|i: int| 0 <= i < sub.len() ==> sub[i].key@ != k));
            }
        }
    }
}

/// The record of a key is the first matching entry's timestamp list.
proof fn lemma_record_in_first_match(s: Seq<KeyRecord>, idx: int)
    requires
        0 <= idx < s.len(),
        forall|j: int| 0 <= j < idx ==> s[j].key@ != s[idx].key@,
    ensures
        record_in(s, s[idx].key@) == s[idx].times@,
    decreases idx,
{
    if idx > 0 {
        lemma_record_in_first_match(s.subrange(1, s.len() as int), idx - 1);
    }
}

/// Replacing the first entry of a key, keeping its key, rewrites that key's
/// record and no other's.
proof fn lemma_record_in_update(s: Seq<KeyRecord>, idx: int, rec: KeyRecord, k: Seq<char>)
    requires
        0 <= idx < s.len(),
        rec.key@ == s[idx].key@,
        forall|j: int| 0 <= j < idx ==> s[j].key@ != s[idx].key@,
    ensures
        record_in(s.update(idx, rec), k) == if k == rec.key@ {
            rec.times@
        } else {
            record_in(s, k)
        },
    decreases idx,
{
    let su = s.update(idx, rec);
    if idx == 0 {
        if su[0].key@ != k {
            assert(s[0].key@ != k);
            assert(su.subrange(1, su.len() as int) =~= s.subrange(1, s.len() as int));
        }
    } else {
        assert(su.subrange(1, su.len() as int) =~= s.subrange(1, s.len() as int).update(
            idx - 1,
            rec,
        ));
        lemma_record_in_update(s.subrange(1, s.len() as int), idx - 1, rec, k);
    }
}

/// Pruning distributes over appending one timestamp.
proof fn lemma_pruned_push(r: Seq<u64>, x: u64, window: u64, now: u64)
    ensures
        pruned(r.push(x), window, now) == if in_window(now, x, window) {
            pruned(r, window, now).push(x)
        } else {
            pruned(r, window, now)
        },
{
    reveal(Seq::filter);
    assert(r.push(x).drop_last() =~= r);
}

impl Default for IpRateLimiter {
    /// Same as `new`: a limiter in which every key reads as an empty record.
    fn default() -> (r: Self)
        ensures
            r.entries@.len() == 0,
            forall|k: Seq<char>| r.record(k) == Seq::<u64>::empty(),
    {
        IpRateLimiter::new()
    }
}

impl IpRateLimiter {
    /// The record held for key `k`; an absent key reads as an empty record.
    pub open spec fn record(self, k: Seq<char>) -> Seq<u64> {
        record_in(self.entries@, k)
    }

    /// A fresh limiter: every key reads as an empty record.
    pub fn new() -> (r: Self)
        ensures
            r.entries@.len() == 0,
            forall|k: Seq<char>| r.record(k) == Seq::<u64>::empty(),
    {
        IpRateLimiter { entries: Vec::new() }
    }

    /// The index of the first entry held for `k`, if any.
    fn find_index(entries: &Vec<KeyRecord>, k: &String) -> (r: Option<usize>)
        ensures
            match r {
                Some(i) => i < entries@.len() && entries@[i as int].key@ == k@ && (forall|j: int|
                    0 <= j < i ==> entries@[j].key@ != k@),
                None => forall|j: int| 0 <= j < entries@.len() ==> entries@[j].key@ != k@,
            },
    {
        let mut i: usize = 0;
        while i < entries.len()
            invariant
                i <= entries@.len(),
                forall|j: int| 0 <= j < i ==> entries@[j].key@ != k@,
            decreases entries@.len() - i,
        {
            if entries[i].key == *k {
                return Some(i);
            }
            i += 1;
        }
        None
    }

    /// One admission query for `key` at time `now`, with limit
    /// `max_requests` over the trailing window of `window` nanoseconds.
    ///
    /// The key's record is pruned to the window, the query is admitted
    /// exactly when the pruned record is below the limit, and an admitted
    /// query appends `now` to the record. No other key's record changes.
    pub fn allow(&mut self, key: &str, max_requests: usize, window: u64, now: u64) -> (admitted:
        bool)
        ensures
            admitted == admits(old(self).record(key@), max_requests, window, now),
            final(self).record(key@) == next_record(
                old(self).record(key@),
                max_requests,
                window,
                now,
            ),
            forall|k2: Seq<char>| k2 != key@ ==> final(self).record(k2) == old(self).record(k2),
    {
        let k = String::from_str(key);
        let idx: usize = match Self::find_index(&self.entries, &k) {
            Some(i) => i,
            None => {
                let len = self.entries.len();
                let rec = KeyRecord { key: k, times: Vec::new() };
                proof {
                    let grec = rec;
                    let s0 = self.entries@;
                    assert forall|k2: Seq<char>|
                        record_in(s0.push(grec), k2) == record_in(s0, k2) by {
                        lemma_record_in_push(s0, grec, k2);
                        if k2 == grec.key@ && (forall|i: int|
                            0 <= i < s0.len() ==> s0[i].key@ != k2) {
                            lemma_record_in_absent(s0, k2);
                        }
                    }
                }
                self.entries.push(rec);
                len
            },
        };
        let ghost s1 = self.entries@;
        proof {
            assert(forall|k2: Seq<char>| record_in(s1, k2) == record_in(old(self).entries@, k2));
            assert(s1[idx as int].key@ == key@);
            lemma_record_in_first_match(s1, idx as int);
        }
        let mut entry = self.entries.remove(idx);
        let ghost old_times = entry.times@;
        assert(old_times == old(self).record(key@));
        let mut kept: Vec<u64> = Vec::new();
        let mut i: usize = 0;
        let tlen = entry.times.len();
        while i < tlen
            invariant
                i <= tlen,
                tlen == entry.times@.len(),
                entry.times@ == old_times,
                kept@ == pruned(old_times.take(i as int), window, now),
            decreases tlen - i,
        {
            let t = entry.times[i];
            proof {
                assert(old_times.take(i + 1) =~= old_times.take(i as int).push(old_times[i as int]));
                lemma_pruned_push(old_times.take(i as int), old_times[i as int], window, now);
            }
            if t > now || now - t <= window {
                kept.push(t);
            }
            i += 1;
        }
        proof {
            assert(old_times.take(tlen as int) =~= old_times);
        }
        let admitted = kept.len() < max_requests;
        if admitted {
            kept.push(now);
        }
        entry.times = kept;
        let ghost gentry = entry;
        self.entries.insert(idx, entry);
        proof {
            assert(self.entries@ =~= s1.update(idx as int, gentry));
            assert forall|k2: Seq<char>|
                record_in(self.entries@, k2) == if k2 == key@ {
                    gentry.times@
                } else {
                    record_in(s1, k2)
                } by {
                lemma_record_in_update(s1, idx as int, gentry, k2);
            }
        }
        admitted
    }
}

/// The record produced by a chronological run of queries on one key, all
/// with the same limit and window, starting from an empty record.
pub open spec fn run_record(nows: Seq<u64>, max_requests: usize, window: u64) -> Seq<u64>
    decreases nows.len(),
{
    if nows.len() == 0 {
        Seq::<u64>::empty()
    } else {
        next_record(
            run_record(nows.drop_last(), max_requests, window),
            max_requests,
            window,
            nows.last(),
        )
    }
}

/// The timestamps of the admitted queries of such a run, in order.
pub open spec fn run_admitted(nows: Seq<u64>, max_requests: usize, window: u64) -> Seq<u64>
    decreases nows.len(),
{
    if nows.len() == 0 {
        Seq::<u64>::empty()
    } else {
        let prev = run_admitted(nows.drop_last(), max_requests, window);
        if admits(
            run_record(nows.drop_last(), max_requests, window),
            max_requests,
            window,
            nows.last(),
        ) {
            prev.push(nows.last())
        } else {
            prev
        }
    }
}

/// Pruning at a later time discards whatever pruning at an earlier time
/// already discarded: the two prunes collapse to the later one.
proof fn lemma_pruned_pruned(s: Seq<u64>, window: u64, n1: u64, n2: u64)
    requires
        n1 <= n2,
    ensures
        pruned(pruned(s, window, n1), window, n2) == pruned(s, window, n2),
    decreases s.len(),
{
    reveal(Seq::filter);
    if s.len() > 0 {
        let s0 = s.drop_last();
        let x = s.last();
        lemma_pruned_pruned(s0, window, n1, n2);
        assert(s =~= s0.push(x));
        lemma_pruned_push(s0, x, window, n1);
        lemma_pruned_push(s0, x, window, n2);
        if in_window(n1, x, window) {
            lemma_pruned_push(pruned(s0, window, n1), x, window, n2);
        }
    }
}

/// Pruning never lengthens a record.
proof fn lemma_pruned_len(s: Seq<u64>, window: u64, now: u64)
    ensures
        pruned(s, window, now).len() <= s.len(),
    decreases s.len(),
{
    reveal(Seq::filter);
    if s.len() > 0 {
        lemma_pruned_len(s.drop_last(), window, now);
        lemma_pruned_push(s.drop_last(), s.last(), window, now);
        assert(s =~= s.drop_last().push(s.last()));
    }
}

/// The run invariant: after a chronological run, the record held for the
/// key is exactly the admitted timestamps still in the window of the last
/// query, and it never holds more than the limit.
proof fn lemma_run_record_is_windowed_admissions(nows: Seq<u64>, max_requests: usize, window: u64)
    requires
        nows.len() > 0,
        forall|i: int, j: int| 0 <= i <= j < nows.len() ==> nows[i] <= nows[j],
    ensures
        run_record(nows, max_requests, window) == pruned(
            run_admitted(nows, max_requests, window),
            window,
            nows.last(),
        ),
        run_record(nows, max_requests, window).len() <= max_requests,
    decreases nows.len(),
{
    reveal(Seq::filter);
    let s0 = nows.drop_last();
    let n = nows.last();
    let rec0 = run_record(s0, max_requests, window);
    let adm0 = run_admitted(s0, max_requests, window);
    if s0.len() == 0 {
        assert(pruned(Seq::<u64>::empty(), window, n) =~= Seq::<u64>::empty());
        if admits(rec0, max_requests, window, n) {
            lemma_pruned_push(Seq::<u64>::empty(), n, window, n);
        }
    } else {
        let m = s0.last();
        assert(forall|i: int, j: int| 0 <= i <= j < s0.len() ==> s0[i] <= s0[j]);
        lemma_run_record_is_windowed_admissions(s0, max_requests, window);
        assert(m == nows[nows.len() - 2] && n == nows[nows.len() - 1]);
        assert(m <= n);
        lemma_pruned_pruned(adm0, window, m, n);
        assert(pruned(rec0, window, n) == pruned(adm0, window, n));
        if admits(rec0, max_requests, window, n) {
            lemma_pruned_push(adm0, n, window, n);
        } else {
            lemma_pruned_len(rec0, window, n);
        }
    }
}

/// Sliding-window guarantee: over any chronological run of queries on one
/// key with a fixed limit and window, starting from an empty record, the
/// admitted events that fall in the trailing window ending at a query's
/// time never number more than the limit — after the last query, and
/// likewise at every earlier point of the run.
pub proof fn lemma_admitted_in_window_bounded(nows: Seq<u64>, max_requests: usize, window: u64)
    requires
        nows.len() > 0,
        forall|i: int, j: int| 0 <= i <= j < nows.len() ==> nows[i] <= nows[j],
    ensures
        pruned(run_admitted(nows, max_requests, window), window, nows.last()).len()
            <= max_requests,
        forall|n: int|
            0 < n <= nows.len() ==> #[trigger] pruned(
                run_admitted(nows.take(n), max_requests, window),
                window,
                nows.take(n).last(),
            ).len() <= max_requests,
{
    lemma_run_record_is_windowed_admissions(nows, max_requests, window);
    assert forall|n: int|
        0 < n <= nows.len() implies #[trigger] pruned(
        run_admitted(nows.take(n), max_requests, window),
        window,
        nows.take(n).last(),
    ).len() <= max_requests by {
        let prefix = nows.take(n);
        assert(forall|i: int, j: int| 0 <= i <= j < prefix.len() ==> prefix[i] <= prefix[j]);
        lemma_run_record_is_windowed_admissions(prefix, max_requests, window);
    }
}

/// A limit of zero admits nothing: whatever the key's history, the window,
/// and the time of the query, the query is rejected.
pub proof fn lemma_zero_limit_rejects(r: Seq<u64>, window: u64, now: u64)
    ensures
        !admits(r, 0, window, now),
{
}

/// Inclusive window boundary: after a single admitted event at time `t`
/// under a limit of one, a query up to exactly `window` later is rejected,
/// and a query more than `window` later is admitted.
pub proof fn lemma_window_boundary(t: u64, now: u64, window: u64)
    requires
        t <= now,
    ensures
        next_record(Seq::<u64>::empty(), 1, window, t) == seq![t],
        now - t <= window ==> !admits(seq![t], 1, window, now),
        now - t > window ==> admits(seq![t], 1, window, now),
{
    reveal(Seq::filter);
    assert(pruned(Seq::<u64>::empty(), window, t) =~= Seq::<u64>::empty());
    assert(pruned(Seq::<u64>::empty(), window, now) =~= Seq::<u64>::empty());
    assert(Seq::<u64>::empty().push(t) =~= seq![t]);
    assert(seq![t].drop_last() =~= Seq::<u64>::empty());
    lemma_pruned_push(Seq::<u64>::empty(), t, window, now);
}

/// A key that no entry holds reads as the empty record.
proof fn lemma_record_in_absent(s: Seq<KeyRecord>, k: Seq<char>)
    requires
        forall|j: int| 0 <= j < s.len() ==> s[j].key@ != k,
    ensures
        record_in(s, k) == Seq::<u64>::empty(),
    decreases s.len(),
{
    if s.len() > 0 {
        lemma_record_in_absent(s.subrange(1, s.len() as int), k);
    }
}

} // verus!
