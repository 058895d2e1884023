//! The query-log model: a keyed map from host string to last-seen timestamp,
//! with upsert-on-repeat semantics and a TTL-windowed load used to drive
//! startup replay. `MemDnsLogStore` is the verified in-memory store; a
//! persistence backend implements the same `DnsLogStore` trait and is held to
//! the same contracts at its interface.

use vstd::prelude::*;

verus! {

/// Seconds in the trailing window that `load_entries` keeps: seven days.
pub const RETENTION_WINDOW_SECS: u64 = 604800;

/// Error from a log-store backend (persistence I/O, timestamp computation).
#[derive(Debug, Clone)]
pub struct StoreError {
    message: String,
}

impl StoreError {
    /// The error text, as an abstract sequence of characters.
    pub closed spec fn spec_message(&self) -> Seq<char> {
        self.message@
    }

    pub fn new(message: String) -> (r: StoreError)
        ensures
            r.spec_message() == message@,
    {
        StoreError { message }
    }

    pub fn message(&self) -> (r: &String)
        ensures
            r@ == self.spec_message(),
    {
        &self.message
    }
}

/// One persisted sighting of a corporate host.
pub struct LogEntry {
    pub timestamp: u64,
    pub host: String,
}

/// The abstract content of a sequence of entries: (host key, last seen) pairs.
pub open spec fn entries_model(v: Seq<LogEntry>) -> Seq<(Seq<char>, u64)> {
    Seq::new(v.len(), |i: int| (v[i].host@, v[i].timestamp))
}

/// At most one row per host key.
pub open spec fn unique_hosts(log: Seq<(Seq<char>, u64)>) -> bool {
    forall|i: int, j: int| 0 <= i < j < log.len() ==> (#[trigger] log[i]).0 != (#[trigger] log[j]).0
}

/// The result of upserting (h, t): the first row keyed `h` gets timestamp `t`,
/// or a new row is appended when no row is keyed `h`.
pub open spec fn spec_upsert(log: Seq<(Seq<char>, u64)>, h: Seq<char>, t: u64) -> Seq<
    (Seq<char>, u64),
>
    decreases log.len(),
{
    if log.len() == 0 {
        seq![(h, t)]
    } else if log[0].0 == h {
        seq![(h, t)] + log.skip(1)
    } else {
        seq![log[0]] + spec_upsert(log.skip(1), h, t)
    }
}

/// Whether a windowed load at time `now` keeps a row: a nonzero timestamp,
/// a nonempty host, and a last-seen time inside the trailing window.
pub open spec fn keep_entry(p: (Seq<char>, u64), now: u64) -> bool {
    p.1 != 0 && p.0.len() > 0 && p.1 as int > now as int - (RETENTION_WINDOW_SECS as int)
}

/// A keyed, TTL-windowed log of corporate-host sightings. The persistence
/// backend can vary behind this trait; every backend owes its callers these
/// contracts at the interface.
pub trait DnsLogStore {
    /// The rows the store holds, in storage order.
    spec fn log(&self) -> Seq<(Seq<char>, u64)>;

    /// The store's invariant.
    spec fn wf(&self) -> bool;

    /// Retention maintenance; this design never expires stored rows.
    fn clean_up(&mut self)
        requires
            old(self).wf(),
        ensures
            final(self).wf(),
            final(self).log() == old(self).log(),
    ;

    /// Records that `host` was seen at `now`, overwriting the row's
    /// timestamp if the exact host key already has one.
    fn on_query(&mut self, host: &str, now: u64) -> (r: Result<(), StoreError>)
        requires
            old(self).wf(),
        ensures
            final(self).wf(),
            r is Ok ==> final(self).log() == spec_upsert(old(self).log(), host@, now),
            r is Err ==> final(self).log() == old(self).log(),
    ;

    /// Returns the rows seen within the trailing window before `now`, in
    /// storage order, skipping rows with an empty host or a zero timestamp.
    fn load_entries(&self, now: u64) -> (r: Result<Vec<LogEntry>, StoreError>)
        requires
            self.wf(),
        ensures
            r matches Ok(v) ==> entries_model(v@) == self.log().filter(
                |p: (Seq<char>, u64)| keep_entry(p, now),
            ),
    ;
}

proof fn lemma_filter_step(s: Seq<(Seq<char>, u64)>, now: u64, i: int)
    requires
        0 <= i < s.len(),
    ensures
        s.take(i + 1).filter(|p: (Seq<char>, u64)| keep_entry(p, now))
            == if keep_entry(s[i], now) {
            s.take(i).filter(|p: (Seq<char>, u64)| keep_entry(p, now)).push(s[i])
        } else {
            s.take(i).filter(|p: (Seq<char>, u64)| keep_entry(p, now))
        },
{
    reveal_with_fuel(Seq::filter, 2);
    assert(s.take(i + 1).drop_last() =~= s.take(i));
    assert(s.take(i + 1).last() == s[i]);
}

/// The windowed, defensive filtering that a load performs, on rows already in
/// memory: keeps, in order, the rows with a nonzero timestamp, a nonempty
/// host, and a last-seen time within the trailing window before `now`.
pub fn filter_recent(rows: &Vec<LogEntry>, now: u64) -> (r: Vec<LogEntry>)
    ensures
        entries_model(r@) == entries_model(rows@).filter(
            |p: (Seq<char>, u64)| keep_entry(p, now),
        ),
{
    let ghost m = entries_model(rows@);
    let mut out: Vec<LogEntry> = Vec::new();
    let mut i: usize = 0;
    proof {
        assert(m.take(0) =~= Seq::<(Seq<char>, u64)>::empty());
        reveal_with_fuel(Seq::filter, 1);
        assert(entries_model(out@) =~= m.take(0).filter(|p: (Seq<char>, u64)| keep_entry(p, now)));
    }
    while i < rows.len()
        invariant
            m == entries_model(rows@),
            0 <= i <= rows@.len(),
            entries_model(out@) == m.take(i as int).filter(
                |p: (Seq<char>, u64)| keep_entry(p, now),
            ),
        decreases rows@.len() - i,
    {
        let ts = rows[i].timestamp;
        let keep = ts != 0 && !rows[i].host.as_str().is_empty() && (now < RETENTION_WINDOW_SECS
            || ts > now - RETENTION_WINDOW_SECS);
        proof {
            assert(m[i as int] == (rows@[i as int].host@, rows@[i as int].timestamp));
            assert(keep == keep_entry(m[i as int], now));
            lemma_filter_step(m, now, i as int);
        }
        if keep {
            let e = LogEntry { timestamp: ts, host: rows[i].host.clone() };
            out.push(e);
            proof {
                assert(entries_model(out@) =~= m.take(i + 1).filter(
                    |p: (Seq<char>, u64)| keep_entry(p, now),
                ));
            }
        } else {
            proof {
                assert(entries_model(out@) =~= m.take(i + 1).filter(
                    |p: (Seq<char>, u64)| keep_entry(p, now),
                ));
            }
        }
        i = i + 1;
    }
    proof {
        assert(m.take(rows@.len() as int) =~= m);
    }
    out
}

/// The verified in-memory store: rows in insertion order, one per host key.
pub struct MemDnsLogStore {
    entries: Vec<LogEntry>,
}

impl MemDnsLogStore {
    pub fn new() -> (r: MemDnsLogStore)
        ensures
            r.wf(),
            r.log() == Seq::<(Seq<char>, u64)>::empty(),
    {
        let r = MemDnsLogStore { entries: Vec::new() };
        proof {
            assert(r.log() =~= Seq::<(Seq<char>, u64)>::empty());
        }
        r
    }
}

proof fn lemma_spec_upsert_found(log: Seq<(Seq<char>, u64)>, h: Seq<char>, t: u64, k: int)
    requires
        0 <= k < log.len(),
        log[k].0 == h,
        forall|j: int| 0 <= j < k ==> (#[trigger] log[j]).0 != h,
    ensures
        spec_upsert(log, h, t) == log.update(k, (h, t)),
    decreases k,
{
    if k == 0 {
        assert(spec_upsert(log, h, t) =~= log.update(0, (h, t)));
    } else {
        assert(log[0].0 != h);
        assert(log.skip(1)[k - 1].0 == h);
        assert(forall|j: int| 0 <= j < k - 1 ==> (#[trigger] log.skip(1)[j]).0 != h);
        lemma_spec_upsert_found(log.skip(1), h, t, k - 1);
        assert(seq![log[0]] + log.skip(1).update(k - 1, (h, t)) =~= log.update(k, (h, t)));
    }
}

proof fn lemma_spec_upsert_notfound(log: Seq<(Seq<char>, u64)>, h: Seq<char>, t: u64)
    requires
        forall|j: int| 0 <= j < log.len() ==> (#[trigger] log[j]).0 != h,
    ensures
        spec_upsert(log, h, t) == log.push((h, t)),
    decreases log.len(),
{
    if log.len() == 0 {
        assert(spec_upsert(log, h, t) =~= log.push((h, t)));
    } else {
        assert(forall|j: int| 0 <= j < log.skip(1).len() ==> (#[trigger] log.skip(1)[j]).0 != h);
        lemma_spec_upsert_notfound(log.skip(1), h, t);
        assert(seq![log[0]] + log.skip(1).push((h, t)) =~= log.push((h, t)));
    }
}

impl DnsLogStore for MemDnsLogStore {
    closed spec fn log(&self) -> Seq<(Seq<char>, u64)> {
        entries_model(self.entries@)
    }

    open spec fn wf(&self) -> bool {
        unique_hosts(self.log())
    }

    fn clean_up(&mut self) {
    }

    fn on_query(&mut self, host: &str, now: u64) -> (r: Result<(), StoreError>)
        ensures
            r is Ok,
    {
        let h: String = host.to_owned();
        let n = self.entries.len();
        let mut i: usize = 0;
        while i < n
            invariant
                *self == *old(self),
                old(self).wf(),
                h@ == host@,
                n == self.entries@.len(),
                0 <= i <= n,
                forall|j: int| 0 <= j < i ==> (#[trigger] self.log()[j]).0 != host@,
            decreases n - i,
        {
            if self.entries[i].host == h {
                proof {
                    assert(self.log()[i as int].0 == host@);
                    lemma_spec_upsert_found(self.log(), host@, now, i as int);
                }
                let e = LogEntry { timestamp: now, host: h };
                self.entries.set(i, e);
                proof {
                    assert(self.log() =~= old(self).log().update(i as int, (host@, now)));
                    assert forall|a: int, b: int| 0 <= a < b < self.log().len() implies (
                    #[trigger] self.log()[a]).0 != (#[trigger] self.log()[b]).0 by {
                        assert(self.log()[a].0 == old(self).log()[a].0);
                        assert(self.log()[b].0 == old(self).log()[b].0);
                        assert(old(self).log()[a].0 != old(self).log()[b].0);
                    }
                }
                return Ok(());
            }
            i = i + 1;
        }
        proof {
            lemma_spec_upsert_notfound(self.log(), host@, now);
        }
        let e = LogEntry { timestamp: now, host: h };
        self.entries.push(e);
        proof {
            assert(self.log() =~= old(self).log().push((host@, now)));
            assert forall|a: int, b: int| 0 <= a < b < self.log().len() implies (
            #[trigger] self.log()[a]).0 != (#[trigger] self.log()[b]).0 by {
                if b < self.log().len() - 1 {
                    assert(old(self).log()[a].0 != old(self).log()[b].0);
                } else {
                    assert(old(self).log()[a].0 != host@);
                }
            }
        }
        Ok(())
    }

    fn load_entries(&self, now: u64) -> (r: Result<Vec<LogEntry>, StoreError>)
        ensures
            r is Ok,
    {
        Ok(filter_recent(&self.entries, now))
    }
}

/// Upserting a host twice leaves exactly one row for that host, carrying the
/// second timestamp: after `spec_upsert(spec_upsert(log, h, t1), h, t2)` the
/// rows are still uniquely keyed, some row is keyed `h`, and every row keyed
/// `h` holds `t2`.
pub proof fn lemma_upsert_overwrites(log: Seq<(Seq<char>, u64)>, h: Seq<char>, t1: u64, t2: u64)
    requires
        unique_hosts(log),
    ensures
        unique_hosts(spec_upsert(spec_upsert(log, h, t1), h, t2)),
        exists|k: int|
            0 <= k < spec_upsert(spec_upsert(log, h, t1), h, t2).len()
                && (#[trigger] spec_upsert(spec_upsert(log, h, t1), h, t2)[k]).0 == h,
        forall|j: int|
            0 <= j < spec_upsert(spec_upsert(log, h, t1), h, t2).len()
                && (#[trigger] spec_upsert(spec_upsert(log, h, t1), h, t2)[j]).0 == h
                ==> spec_upsert(spec_upsert(log, h, t1), h, t2)[j].1 == t2,
{
    lemma_upsert_key(log, h, t1);
    lemma_upsert_key(spec_upsert(log, h, t1), h, t2);
}

/// One upsert keeps the rows uniquely keyed, leaves some row keyed `h`, and
/// every row keyed `h` holds the new timestamp.
pub proof fn lemma_upsert_key(log: Seq<(Seq<char>, u64)>, h: Seq<char>, t: u64)
    requires
        unique_hosts(log),
    ensures
        unique_hosts(spec_upsert(log, h, t)),
        exists|k: int|
            0 <= k < spec_upsert(log, h, t).len() && (#[trigger] spec_upsert(log, h, t)[k]).0
                == h,
        forall|j: int|
            0 <= j < spec_upsert(log, h, t).len() && (#[trigger] spec_upsert(log, h, t)[j]).0 == h
                ==> spec_upsert(log, h, t)[j].1 == t,
{
    let up = spec_upsert(log, h, t);
    if exists|k: int| 0 <= k < log.len() && (#[trigger] log[k]).0 == h {
        let k = choose|k: int| 0 <= k < log.len() && (#[trigger] log[k]).0 == h;
        assert(forall|j: int| 0 <= j < k ==> (#[trigger] log[j]).0 != h);
        lemma_spec_upsert_found(log, h, t, k);
        assert(up[k].0 == h);
        assert forall|j: int| 0 <= j < up.len() && (#[trigger] up[j]).0 == h implies up[j].1
            == t by {
            if j != k {
                assert(log[j].0 == h);
            }
        }
    } else {
        assert(forall|j: int| 0 <= j < log.len() ==> (#[trigger] log[j]).0 != h);
        lemma_spec_upsert_notfound(log, h, t);
        assert(up[log.len() as int].0 == h);
    }
}

} // verus!
