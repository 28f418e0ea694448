//! The aggregation engine: a single linear pass accumulating counts, sums
//! and frequency mappings over a completed collection, and a sort pass
//! that ranks the records by response time.

use vstd::prelude::*;
use vstd::string::StringExecFns;
use vstd::pervasive::VecAdditionalExecFns;
use crate::extract::LogEntry;
use crate::level::LogLevel;
use crate::text::str_eq;

verus! {

// ---------------------------------------------------------------------------
// A frequency mapping from endpoint text to occurrence count, held as an
// association list with pairwise distinct keys.
// ---------------------------------------------------------------------------

/// Total count recorded for `key` over the pairs.
pub open spec fn pairs_count(ps: Seq<(String, usize)>, key: Seq<char>) -> nat
    decreases ps.len(),
{
    if ps.len() == 0 {
        0
    } else {
        pairs_count(ps.drop_last(), key) + if ps.last().0@ == key {
            ps.last().1 as nat
        } else {
            0nat
        }
    }
}

proof fn lemma_pairs_count_absent(ps: Seq<(String, usize)>, key: Seq<char>)
    requires
        forall|j: int| 0 <= j < ps.len() ==> (#[trigger] ps[j]).0@ != key,
    ensures
        pairs_count(ps, key) == 0,
    decreases ps.len(),
{
    if ps.len() > 0 {
        lemma_pairs_count_absent(ps.drop_last(), key);
    }
}

proof fn lemma_pairs_count_unique(ps: Seq<(String, usize)>, i: int, key: Seq<char>)
    requires
        0 <= i < ps.len(),
        ps[i].0@ == key,
        forall|j: int, k: int| 0 <= j < k < ps.len() ==> (#[trigger] ps[j]).0@ != (
        #[trigger] ps[k]).0@,
    ensures
        pairs_count(ps, key) == ps[i].1,
    decreases ps.len(),
{
    if i == ps.len() - 1 {
        assert(forall|j: int| 0 <= j < ps.drop_last().len() ==> (#[trigger] ps.drop_last()[j]).0@
            != key);
        lemma_pairs_count_absent(ps.drop_last(), key);
    } else {
        assert(ps.last().0@ != key);
        lemma_pairs_count_unique(ps.drop_last(), i, key);
    }
}

proof fn lemma_pairs_count_update(ps: Seq<(String, usize)>, i: int, c: usize, q: Seq<char>)
    requires
        0 <= i < ps.len(),
    ensures
        ps[i].0@ == q ==> pairs_count(ps.update(i, (ps[i].0, c)), q) + ps[i].1 == pairs_count(
            ps,
            q,
        ) + c,
        ps[i].0@ != q ==> pairs_count(ps.update(i, (ps[i].0, c)), q) == pairs_count(ps, q),
    decreases ps.len(),
{
    let ps2 = ps.update(i, (ps[i].0, c));
    if i == ps.len() - 1 {
        assert(ps2.drop_last() =~= ps.drop_last());
        assert(ps2.last() == (ps[i].0, c));
    } else {
        assert(ps2.drop_last() =~= ps.drop_last().update(i, (ps[i].0, c)));
        assert(ps2.last() == ps.last());
        assert(ps.drop_last()[i] == ps[i]);
        lemma_pairs_count_update(ps.drop_last(), i, c, q);
    }
}

/// A mapping from text keys to counts.
#[derive(Debug)]
pub struct CountMap {
    pub pairs: Vec<(String, usize)>,
}

impl CountMap {
    /// Keys are pairwise distinct.
    pub open spec fn wf(&self) -> bool {
        forall|j: int, k: int|
            0 <= j < k < self.pairs@.len() ==> (#[trigger] self.pairs@[j]).0@ != (
            #[trigger] self.pairs@[k]).0@
    }

    /// The count recorded for `key`; zero when absent.
    pub open spec fn count_of(&self, key: Seq<char>) -> nat {
        pairs_count(self.pairs@, key)
    }

    pub fn new() -> (r: CountMap)
        ensures
            r.wf(),
            r.pairs@.len() == 0,
            forall|q: Seq<char>| r.count_of(q) == 0,
    {
        CountMap { pairs: Vec::new() }
    }

    /// Raises the count of `key` by one, first recording it with count
    /// zero if it was absent.
    pub fn increment(&mut self, key: &str)
        requires
            old(self).wf(),
            old(self).count_of(key@) < usize::MAX,
        ensures
            final(self).wf(),
            final(self).count_of(key@) == old(self).count_of(key@) + 1,
            forall|q: Seq<char>| q != key@ ==> final(self).count_of(q) == old(self).count_of(q),
    {
        let ghost orig = self.pairs@;
        let total = self.pairs.len();
        let mut idx: usize = 0;
        while idx < total
            invariant
                idx <= total,
                total == self.pairs@.len(),
                self.pairs@ == orig,
                orig == old(self).pairs@,
                forall|j: int, k: int|
                    0 <= j < k < orig.len() ==> (#[trigger] orig[j]).0@ != (#[trigger] orig[k]).0@,
                pairs_count(orig, key@) < usize::MAX,
                forall|j: int| 0 <= j < idx ==> (#[trigger] orig[j]).0@ != key@,
            decreases total - idx,
        {
            if str_eq(self.pairs[idx].0.as_str(), key) {
                let c = self.pairs[idx].1;
                proof {
                    lemma_pairs_count_unique(orig, idx as int, key@);
                    lemma_pairs_count_update(orig, idx as int, (c + 1) as usize, key@);
                }
                let fresh = self.pairs[idx].0.clone();
                self.pairs.set(idx, (fresh, c + 1));
                proof {
                    assert(self.pairs@ =~= orig.update(idx as int, (orig[idx as int].0, (c
                        + 1) as usize)));
                    assert forall|q: Seq<char>| q != key@ implies self.count_of(q) == pairs_count(
                        orig,
                        q,
                    ) by {
                        lemma_pairs_count_update(orig, idx as int, (c + 1) as usize, q);
                    }
                }
                return ;
            }
            idx = idx + 1;
        }
        proof {
            lemma_pairs_count_absent(orig, key@);
        }
        self.pairs.push((key.to_owned(), 1));
        proof {
            assert(self.pairs@.drop_last() =~= orig);
            assert forall|q: Seq<char>| q != key@ implies self.count_of(q) == pairs_count(
                orig,
                q,
            ) by {}
        }
    }

    /// Reads the count recorded for `key`.
    pub fn get(&self, key: &str) -> (c: usize)
        requires
            self.wf(),
        ensures
            c as nat == self.count_of(key@),
    {
        let total = self.pairs.len();
        let mut idx: usize = 0;
        while idx < total
            invariant
                idx <= total,
                total == self.pairs@.len(),
                self.wf(),
                forall|j: int| 0 <= j < idx ==> (#[trigger] self.pairs@[j]).0@ != key@,
            decreases total - idx,
        {
            if str_eq(self.pairs[idx].0.as_str(), key) {
                proof {
                    lemma_pairs_count_unique(self.pairs@, idx as int, key@);
                }
                return self.pairs[idx].1;
            }
            idx = idx + 1;
        }
        proof {
            lemma_pairs_count_absent(self.pairs@, key@);
        }
        0
    }

    /// Number of distinct keys recorded.
    pub fn len(&self) -> (n: usize)
        ensures
            n == self.pairs@.len(),
    {
        self.pairs.len()
    }

    /// The pairs ordered by count, largest first, for a ranking; pairs of
    /// equal count stand in no specified order.
    pub fn sorted_by_count(&self) -> (r: Vec<(String, usize)>)
        ensures
            pairs_sorted_desc(r@),
            r@.len() == self.pairs@.len(),
            r@.to_multiset() == self.pairs@.to_multiset(),
    {
        broadcast use vstd::seq_lib::group_to_multiset_ensures;

        let ghost all = self.pairs@;
        let total = self.pairs.len();
        let mut out: Vec<(String, usize)> = Vec::new();
        let mut k: usize = 0;
        proof {
            assert(all.subrange(0, 0) =~= Seq::<(String, usize)>::empty());
            assert(Seq::<(String, usize)>::empty().to_multiset() =~= out@.to_multiset());
        }
        while k < total
            invariant
                k <= total,
                total == self.pairs@.len(),
                all == self.pairs@,
                pairs_sorted_desc(out@),
                out@.len() == k,
                out@.to_multiset() == all.subrange(0, k as int).to_multiset(),
            decreases total - k,
        {
            let ghost pre = all.subrange(0, k as int);
            let ghost pre1 = all.subrange(0, k as int + 1);
            proof {
                assert(pre1.drop_last() =~= pre);
                assert(pre1 =~= pre.push(all[k as int]));
            }
            let p = (self.pairs[k].0.clone(), self.pairs[k].1);
            insert_pair_sorted(&mut out, p);
            proof {
                broadcast use vstd::seq_lib::group_to_multiset_ensures;

                assert(pre.push(all[k as int]).to_multiset() =~= pre.to_multiset().insert(
                    all[k as int],
                ));
                assert(pre1.to_multiset() =~= pre.to_multiset().insert(all[k as int]));
            }
            k = k + 1;
        }
        proof {
            assert(all.subrange(0, total as int) =~= all);
        }
        out
    }
}

/// Larger counts first.
pub open spec fn pairs_sorted_desc(s: Seq<(String, usize)>) -> bool {
    forall|i: int, j: int| 0 <= i < j < s.len() ==> (#[trigger] s[i]).1 >= (#[trigger] s[j]).1
}

fn insert_pair_sorted(v: &mut Vec<(String, usize)>, p: (String, usize))
    requires
        pairs_sorted_desc(old(v)@),
    ensures
        pairs_sorted_desc(final(v)@),
        final(v)@.len() == old(v)@.len() + 1,
        final(v)@.to_multiset() == old(v)@.to_multiset().insert(p),
{
    let n = v.len();
    let mut pos: usize = 0;
    while pos < n
        invariant
            pos <= n,
            n == v@.len(),
            v@ == old(v)@,
            forall|q: int| 0 <= q < pos ==> (#[trigger] v@[q]).1 >= p.1,
        ensures
            pos <= n,
            v@ == old(v)@,
            forall|q: int| 0 <= q < pos ==> (#[trigger] v@[q]).1 >= p.1,
            pos < n ==> v@[pos as int].1 < p.1,
        decreases n - pos,
    {
        if v[pos].1 < p.1 {
            break ;
        }
        pos = pos + 1;
    }
    let ghost orig = v@;
    v.insert(pos, p);
    proof {
        lemma_insert_multiset(orig, pos as int, p);
        orig.insert_ensures(pos as int, p);
        let now = v@;
        assert forall|i: int, j: int| 0 <= i < j < now.len() implies (#[trigger] now[i]).1 >= (
        #[trigger] now[j]).1 by {
            if j < pos {
                assert(now[i] == orig[i] && now[j] == orig[j]);
            } else if j == pos {
                assert(now[j] == p && now[i] == orig[i]);
            } else {
                if i < pos {
                    assert(now[i] == orig[i] && now[j] == orig[j - 1]);
                } else if i == pos {
                    assert(now[i] == p && now[j] == orig[j - 1]);
                    assert(pos < orig.len() && orig[pos as int].1 < p.1);
                    if j - 1 > pos {
                        assert(orig[pos as int].1 >= orig[j - 1].1);
                    }
                } else {
                    assert(now[i] == orig[i - 1] && now[j] == orig[j - 1]);
                }
            }
        }
    }
}

// ---------------------------------------------------------------------------
// Counting passes over a sequence of records.
// ---------------------------------------------------------------------------

/// Number of records whose level is exactly `l`.
pub open spec fn count_level(s: Seq<LogEntry>, l: LogLevel) -> nat
    decreases s.len(),
{
    if s.len() == 0 {
        0
    } else {
        count_level(s.drop_last(), l) + if s.last().level == Some(l) {
            1nat
        } else {
            0nat
        }
    }
}

/// Sum of the response times that are present.
pub open spec fn sum_rt(s: Seq<LogEntry>) -> nat
    decreases s.len(),
{
    if s.len() == 0 {
        0
    } else {
        sum_rt(s.drop_last()) + match s.last().response_time {
            Some(v) => v as nat,
            None => 0nat,
        }
    }
}

/// Number of records whose endpoint is exactly `q`.
pub open spec fn ep_count(s: Seq<LogEntry>, q: Seq<char>) -> nat
    decreases s.len(),
{
    if s.len() == 0 {
        0
    } else {
        ep_count(s.drop_last(), q) + match s.last().endpoint {
            Some(e) => if e@ == q {
                1nat
            } else {
                0nat
            },
            None => 0nat,
        }
    }
}

/// Number of records at level Error whose endpoint is exactly `q`.
pub open spec fn err_ep_count(s: Seq<LogEntry>, q: Seq<char>) -> nat
    decreases s.len(),
{
    if s.len() == 0 {
        0
    } else {
        err_ep_count(s.drop_last(), q) + if s.last().level == Some(LogLevel::Error) {
            match s.last().endpoint {
                Some(e) => if e@ == q {
                    1nat
                } else {
                    0nat
                },
                None => 0nat,
            }
        } else {
            0nat
        }
    }
}

proof fn lemma_ep_count_le(s: Seq<LogEntry>, q: Seq<char>)
    ensures
        ep_count(s, q) <= s.len(),
        err_ep_count(s, q) <= s.len(),
    decreases s.len(),
{
    if s.len() > 0 {
        lemma_ep_count_le(s.drop_last(), q);
    }
}

/// Records with no level count toward the total and no bucket, so the
/// three level counts together never exceed the number of records.
pub proof fn lemma_level_counts_reconcile(s: Seq<LogEntry>)
    ensures
        count_level(s, LogLevel::Info) + count_level(s, LogLevel::Warning) + count_level(
            s,
            LogLevel::Error,
        ) <= s.len(),
    decreases s.len(),
{
    if s.len() > 0 {
        lemma_level_counts_reconcile(s.drop_last());
    }
}

// ---------------------------------------------------------------------------
// Ranking by response time, descending; a record without a response time
// orders below every record that has one.
// ---------------------------------------------------------------------------

/// `a` ranks at least as slow as `b`.
pub open spec fn key_ge(a: LogEntry, b: LogEntry) -> bool {
    match (a.response_time, b.response_time) {
        (Some(x), Some(y)) => x >= y,
        (Some(_), None) => true,
        (None, None) => true,
        (None, Some(_)) => false,
    }
}

/// Slowest first; records without a response time at the end.
pub open spec fn sorted_desc(s: Seq<LogEntry>) -> bool {
    forall|i: int, j: int| 0 <= i < j < s.len() ==> key_ge(#[trigger] s[i], #[trigger] s[j])
}

fn key_ge_exec(a: &LogEntry, b: &LogEntry) -> (r: bool)
    ensures
        r == key_ge(*a, *b),
{
    match (&a.response_time, &b.response_time) {
        (Some(x), Some(y)) => *x >= *y,
        (Some(_), None) => true,
        (None, None) => true,
        (None, Some(_)) => false,
    }
}

proof fn lemma_insert_multiset<A>(s: Seq<A>, p: int, e: A)
    requires
        0 <= p <= s.len(),
    ensures
        s.insert(p, e).to_multiset() =~= s.to_multiset().insert(e),
{
    broadcast use vstd::seq_lib::group_to_multiset_ensures;
    broadcast use vstd::multiset::group_multiset_axioms;

    let s0 = s.subrange(0, p);
    let s1 = s.subrange(p, s.len() as int);
    assert(s.insert(p, e) == s0.push(e) + s1);
    vstd::seq_lib::lemma_multiset_commutative(s0.push(e), s1);
    vstd::seq_lib::lemma_multiset_commutative(s0, s1);
    assert(s =~= s0 + s1);
    assert(s0.push(e).to_multiset() =~= s0.to_multiset().insert(e));
}

/// Places one record into a ranking that is already sorted.
fn insert_sorted(v: &mut Vec<LogEntry>, e: LogEntry)
    requires
        sorted_desc(old(v)@),
    ensures
        sorted_desc(final(v)@),
        final(v)@.len() == old(v)@.len() + 1,
        final(v)@.to_multiset() == old(v)@.to_multiset().insert(e),
{
    let n = v.len();
    let mut p: usize = 0;
    while p < n
        invariant
            p <= n,
            n == v@.len(),
            v@ == old(v)@,
            forall|q: int| 0 <= q < p ==> key_ge(#[trigger] v@[q], e),
        ensures
            p <= n,
            v@ == old(v)@,
            forall|q: int| 0 <= q < p ==> key_ge(#[trigger] v@[q], e),
            p < n ==> !key_ge(v@[p as int], e),
        decreases n - p,
    {
        if !key_ge_exec(&v[p], &e) {
            break ;
        }
        p = p + 1;
    }
    let ghost orig = v@;
    v.insert(p, e);
    proof {
        lemma_insert_multiset(orig, p as int, e);
        orig.insert_ensures(p as int, e);
        let now = v@;
        assert forall|i: int, j: int| 0 <= i < j < now.len() implies key_ge(
            #[trigger] now[i],
            #[trigger] now[j],
        ) by {
            if j < p {
                assert(now[i] == orig[i] && now[j] == orig[j]);
            } else if j == p {
                assert(now[j] == e && now[i] == orig[i]);
            } else {
                if i < p {
                    assert(now[i] == orig[i] && now[j] == orig[j - 1]);
                    if j - 1 == p && p < orig.len() {
                    }
                } else if i == p {
                    assert(now[i] == e && now[j] == orig[j - 1]);
                    assert(p < orig.len() && !key_ge(orig[p as int], e));
                    assert(key_ge(e, orig[p as int]));
                    if j - 1 > p {
                        assert(key_ge(orig[p as int], orig[j - 1]));
                    }
                } else {
                    assert(now[i] == orig[i - 1] && now[j] == orig[j - 1]);
                }
            }
        }
    }
}

// ---------------------------------------------------------------------------
// The statistics snapshot.
// ---------------------------------------------------------------------------

/// A derived, immutable summary of a completed collection. The response
/// time sum is exact; the mean it induces divides by the total record
/// count, not by the count of records that carried a response time.
#[derive(Debug)]
pub struct LogStats {
    pub total_requests: usize,
    pub error_count: usize,
    pub warning_count: usize,
    pub info_count: usize,
    pub response_time_sum: u128,
    pub endpoint_frequency: CountMap,
    pub errors_by_endpoint: CountMap,
    pub slowest_requests: Vec<LogEntry>,
}

impl LogStats {
    /// Internal consistency: well-formed mappings, a ranking sorted
    /// slowest first, and level buckets that reconcile with the total.
    pub open spec fn wf(&self) -> bool {
        &&& self.endpoint_frequency.wf()
        &&& self.errors_by_endpoint.wf()
        &&& sorted_desc(self.slowest_requests@)
        &&& self.info_count + self.warning_count + self.error_count <= self.total_requests
        &&& self.slowest_requests@.len() == self.total_requests
    }

    /// The empty snapshot.
    pub fn new() -> (r: LogStats)
        ensures
            r.wf(),
            r.total_requests == 0,
            r.error_count == 0,
            r.warning_count == 0,
            r.info_count == 0,
            r.response_time_sum == 0,
            r.endpoint_frequency.pairs@.len() == 0,
            r.errors_by_endpoint.pairs@.len() == 0,
            r.slowest_requests@.len() == 0,
    {
        LogStats {
            total_requests: 0,
            error_count: 0,
            warning_count: 0,
            info_count: 0,
            response_time_sum: 0,
            endpoint_frequency: CountMap::new(),
            errors_by_endpoint: CountMap::new(),
            slowest_requests: Vec::new(),
        }
    }

    /// Reduces a collection to its summary: level counts, the exact sum
    /// of present response times, the two frequency mappings, and the
    /// full ranking of records by response time, slowest first.
    pub fn from_entries(entries: &Vec<LogEntry>) -> (r: LogStats)
        ensures
            r.wf(),
            r.total_requests == entries@.len(),
            r.info_count == count_level(entries@, LogLevel::Info),
            r.warning_count == count_level(entries@, LogLevel::Warning),
            r.error_count == count_level(entries@, LogLevel::Error),
            r.response_time_sum == sum_rt(entries@),
            forall|q: Seq<char>|
                #[trigger] r.endpoint_frequency.count_of(q) == ep_count(entries@, q),
            forall|q: Seq<char>|
                #[trigger] r.errors_by_endpoint.count_of(q) == err_ep_count(entries@, q),
            r.slowest_requests@.len() == entries@.len(),
            r.slowest_requests@.to_multiset() == entries@.to_multiset(),
            sorted_desc(r.slowest_requests@),
    {
        broadcast use vstd::seq_lib::group_to_multiset_ensures;

        let ghost all = entries@;
        let total = entries.len();
        let mut info_count: usize = 0;
        let mut warning_count: usize = 0;
        let mut error_count: usize = 0;
        let mut response_time_sum: u128 = 0;
        let mut endpoint_frequency = CountMap::new();
        let mut errors_by_endpoint = CountMap::new();
        let mut idx: usize = 0;
        proof {
            assert(all.subrange(0, 0) =~= Seq::<LogEntry>::empty());
        }
        while idx < total
            invariant
                idx <= total,
                total == entries@.len(),
                all == entries@,
                info_count <= idx && warning_count <= idx && error_count <= idx,
                info_count == count_level(all.subrange(0, idx as int), LogLevel::Info),
                warning_count == count_level(all.subrange(0, idx as int), LogLevel::Warning),
                error_count == count_level(all.subrange(0, idx as int), LogLevel::Error),
                response_time_sum as nat == sum_rt(all.subrange(0, idx as int)),
                response_time_sum as nat <= (idx as nat) * (u64::MAX as nat),
                endpoint_frequency.wf(),
                errors_by_endpoint.wf(),
                forall|q: Seq<char>|
                    #[trigger] endpoint_frequency.count_of(q) == ep_count(
                        all.subrange(0, idx as int),
                        q,
                    ),
                forall|q: Seq<char>|
                    #[trigger] errors_by_endpoint.count_of(q) == err_ep_count(
                        all.subrange(0, idx as int),
                        q,
                    ),
            decreases total - idx,
        {
            let ghost pre = all.subrange(0, idx as int);
            let ghost pre1 = all.subrange(0, idx as int + 1);
            proof {
                assert(pre1.drop_last() =~= pre);
                assert(pre1.last() == all[idx as int]);
            }
            let e = &entries[idx];
            let is_error = match &e.level {
                Some(LogLevel::Error) => true,
                _ => false,
            };
            match &e.level {
                Some(LogLevel::Info) => {
                    info_count = info_count + 1;
                },
                Some(LogLevel::Warning) => {
                    warning_count = warning_count + 1;
                },
                Some(LogLevel::Error) => {
                    error_count = error_count + 1;
                },
                None => {},
            }
            match &e.endpoint {
                Some(ep) => {
                    proof {
                        lemma_ep_count_le(pre, ep@);
                    }
                    endpoint_frequency.increment(ep.as_str());
                    if is_error {
                        errors_by_endpoint.increment(ep.as_str());
                    }
                    proof {
                        assert forall|q: Seq<char>|
                            #[trigger] endpoint_frequency.count_of(q) == ep_count(pre1, q) by {}
                        assert forall|q: Seq<char>|
                            #[trigger] errors_by_endpoint.count_of(q) == err_ep_count(pre1, q) by {}
                    }
                },
                None => {},
            }
            match &e.response_time {
                Some(v) => {
                    response_time_sum = response_time_sum + (*v as u128);
                },
                None => {},
            }
            idx = idx + 1;
        }
        proof {
            assert(all.subrange(0, total as int) =~= all);
        }
        let mut slowest: Vec<LogEntry> = Vec::new();
        let mut k: usize = 0;
        proof {
            assert(all.subrange(0, 0) =~= Seq::<LogEntry>::empty());
            assert(Seq::<LogEntry>::empty().to_multiset() =~= slowest@.to_multiset());
        }
        while k < total
            invariant
                k <= total,
                total == entries@.len(),
                all == entries@,
                sorted_desc(slowest@),
                slowest@.len() == k,
                slowest@.to_multiset() == all.subrange(0, k as int).to_multiset(),
            decreases total - k,
        {
            let ghost pre = all.subrange(0, k as int);
            let ghost pre1 = all.subrange(0, k as int + 1);
            proof {
                assert(pre1.drop_last() =~= pre);
                assert(pre1 =~= pre.push(all[k as int]));
            }
            let e = entries[k].duplicate();
            insert_sorted(&mut slowest, e);
            proof {
                broadcast use vstd::seq_lib::group_to_multiset_ensures;

                assert(pre.push(all[k as int]).to_multiset() =~= pre.to_multiset().insert(
                    all[k as int],
                ));
                assert(pre1.to_multiset() =~= pre.to_multiset().insert(all[k as int]));
            }
            k = k + 1;
        }
        proof {
            assert(all.subrange(0, total as int) =~= all);
            lemma_level_counts_reconcile(all);
        }
        LogStats {
            total_requests: total,
            error_count,
            warning_count,
            info_count,
            response_time_sum,
            endpoint_frequency,
            errors_by_endpoint,
            slowest_requests: slowest,
        }
    }
}

/// Position of the first record without a response time at or after `i`;
/// in a ranking sorted slowest first this is the size of the sample that
/// carries response times.
pub open spec fn none_from(s: Seq<LogEntry>, i: int) -> int
    decreases s.len() - i,
{
    if i < 0 || i >= s.len() {
        i
    } else if s[i].response_time is None {
        i
    } else {
        none_from(s, i + 1)
    }
}

proof fn lemma_none_from(s: Seq<LogEntry>, i: int, j: int)
    requires
        0 <= i <= j <= s.len(),
        forall|k: int| i <= k < j ==> (#[trigger] s[k]).response_time is Some,
        j == s.len() || s[j].response_time is None,
    ensures
        none_from(s, i) == j,
    decreases j - i,
{
    if i < j {
        lemma_none_from(s, i + 1, j);
    }
}

proof fn lemma_none_from_prefix(s: Seq<LogEntry>, i: int)
    requires
        0 <= i <= s.len(),
    ensures
        i <= none_from(s, i) <= s.len(),
        forall|k: int| i <= k < none_from(s, i) ==> (#[trigger] s[k]).response_time is Some,
    decreases s.len() - i,
{
    if i < s.len() && !(s[i].response_time is None) {
        lemma_none_from_prefix(s, i + 1);
    }
}

/// How strongly errors weigh in the total.
#[derive(Debug, PartialEq, Eq, Structural, Clone, Copy)]
pub enum RateBand {
    High,
    Moderate,
    Normal,
}

impl LogStats {
    /// The mean response time in thousandths, dividing the exact sum by
    /// the total record count; zero when the collection is empty.
    pub fn avg_response_time_thousandths(&self) -> (r: u128)
        ensures
            self.total_requests > 0 ==> r == self.response_time_sum as int / self.total_requests
                as int,
            self.total_requests == 0 ==> r == 0,
    {
        if self.total_requests == 0 {
            0
        } else {
            self.response_time_sum / (self.total_requests as u128)
        }
    }

    /// The value at rank floor(sample × pct / 100) of the ascending
    /// sample of present response times, clamped into the sample; absent
    /// when no record carries one. The sample is the run of records with
    /// response times at the head of the ranking, which in a well-formed
    /// snapshot is every record that carries one, slowest first.
    pub fn percentile(&self, pct: u64) -> (r: Option<u64>)
        ensures
            ({
                let s = self.slowest_requests@;
                let cnt = none_from(s, 0);
                if cnt == 0 {
                    r is None
                } else {
                    let rank = if cnt * pct / 100 < cnt {
                        cnt * pct / 100
                    } else {
                        cnt - 1
                    };
                    r == Some(s[cnt - 1 - rank].response_time->0)
                }
            }),
    {
        let total = self.slowest_requests.len();
        let mut cnt: usize = 0;
        while cnt < total
            invariant
                cnt <= total,
                total == self.slowest_requests@.len(),
                forall|k: int|
                    0 <= k < cnt ==> (#[trigger] self.slowest_requests@[k]).response_time is Some,
            ensures
                cnt <= total,
                total == self.slowest_requests@.len(),
                forall|k: int|
                    0 <= k < cnt ==> (#[trigger] self.slowest_requests@[k]).response_time is Some,
                cnt == total || self.slowest_requests@[cnt as int].response_time is None,
            decreases total - cnt,
        {
            let stop = match &self.slowest_requests[cnt].response_time {
                Some(_) => false,
                None => true,
            };
            if stop {
                break ;
            }
            cnt = cnt + 1;
        }
        proof {
            lemma_none_from(self.slowest_requests@, 0, cnt as int);
        }
        if cnt == 0 {
            return None;
        }
        proof {
            assert((cnt as int) * (pct as int) <= (u64::MAX as int) * (u64::MAX as int))
                by (nonlinear_arith)
                requires
                    0 <= (cnt as int) <= (u64::MAX as int),
                    0 <= (pct as int) <= (u64::MAX as int);
        }
        let wide = (cnt as u128) * (pct as u128);
        let rank128 = wide / 100;
        let rank: usize = if rank128 < cnt as u128 {
            rank128 as usize
        } else {
            cnt - 1
        };
        proof {
            assert((wide as int) / 100 == (cnt as int) * (pct as int) / 100);
            lemma_none_from_prefix(self.slowest_requests@, 0);
        }
        let idx = cnt - 1 - rank;
        let v = match &self.slowest_requests[idx].response_time {
            Some(v) => *v,
            None => 0,
        };
        Some(v)
    }

    /// Error-rate banding: High above five percent of the total,
    /// Moderate above one percent, Normal otherwise.
    pub fn error_rate_band(&self) -> (r: RateBand)
        ensures
            (r == RateBand::High) <==> self.error_count as int * 100 > 5 * self.total_requests
                as int,
            (r == RateBand::Moderate) <==> (self.error_count as int * 100 <= 5
                * self.total_requests as int && self.error_count as int * 100
                > self.total_requests as int),
            (r == RateBand::Normal) <==> self.error_count as int * 100 <= self.total_requests
                as int,
    {
        let e100 = (self.error_count as u128) * 100;
        if e100 > 5 * (self.total_requests as u128) {
            RateBand::High
        } else if e100 > self.total_requests as u128 {
            RateBand::Moderate
        } else {
            RateBand::Normal
        }
    }

    /// Width of a proportional bar of up to thirty cells.
    pub fn bar_width(count: usize, total: usize) -> (w: usize)
        requires
            total > 0,
            count <= total,
        ensures
            w == count as int * 30 / total as int,
            w <= 30,
    {
        let wide = (count as u128) * 30 / (total as u128);
        proof {
            assert((count as int) * 30 / (total as int) <= 30) by (nonlinear_arith)
                requires
                    0 < (total as int),
                    (count as int) <= (total as int);
        }
        wide as usize
    }
}

/// An endpoint cut to a display width, a cut being marked by an ellipsis.
pub fn truncate_endpoint(endpoint: &str, max_len: usize) -> (r: String)
    requires
        max_len >= 3,
    ensures
        endpoint@.len() <= max_len ==> r@ == endpoint@,
        endpoint@.len() > max_len ==> r@ == endpoint@.subrange(0, max_len - 3) + "..."@,
{
    let n = endpoint.unicode_len();
    if n > max_len {
        let s = endpoint.substring_char(0, max_len - 3);
        let mut out = s.to_owned();
        out.append("...");
        out
    } else {
        endpoint.to_owned()
    }
}

} // verus!
