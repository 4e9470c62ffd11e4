//! Scope profiling: nested begin/end pairs accumulate call counts and
//! elapsed times per scope name. Times are nanoseconds.

use vstd::prelude::*;
use vstd::utf8::{decode_utf8, encode_utf8, encode_utf8_decode_utf8};
use vstd::string::{StringExecFns, StringSliceAdditionalSpecFns};
use crate::interning::str_eq;
use crate::graph::meta::{decimal, decimal_string};

verus! {

#[verifier::external_type_specification]
#[verifier::external_body]
pub struct ExInstant(std::time::Instant);

/// `std::time::Instant::now`. Nothing is claimed of the reading.
#[verifier::external_body]
fn instant_now() -> std::time::Instant {
    std::time::Instant::now()
}

/// `std::time::Instant::elapsed`, in whole nanoseconds
/// (`Duration::as_nanos`). Nothing is claimed of the reading.
#[verifier::external_body]
fn elapsed_nanos(start: &std::time::Instant) -> u128 {
    start.elapsed().as_nanos()
}

/// Call count and total, shortest and longest time of one scope.
#[derive(Clone, Copy, Debug, Default, PartialEq, Eq, Structural)]
pub struct ScopeStats {
    pub count: u64,
    pub total: u128,
    pub min: u128,
    pub max: u128,
}

/// The divisor `count as u32` of the average.
pub open spec fn count_divisor(count: u64) -> int {
    count as int % 0x1_0000_0000
}

impl ScopeStats {
    /// Mean time per call: `total` divided by the call count taken as a
    /// `u32`; zero for no calls.
    pub open spec fn avg_spec(&self) -> int {
        if self.count == 0 {
            0
        } else {
            self.total as int / count_divisor(self.count)
        }
    }

    /// Stats after one more call that took `elapsed`.
    pub open spec fn recorded(self, elapsed: u128) -> ScopeStats {
        let count = self.count + 1;
        ScopeStats {
            count: count as u64,
            total: (self.total + elapsed) as u128,
            min: if count == 1 || elapsed < self.min { elapsed } else { self.min },
            max: if count == 1 || elapsed > self.max { elapsed } else { self.max },
        }
    }

    /// Stats that calls can give: none at all, or a minimum no larger than
    /// the maximum, with the total between the call count times each.
    pub open spec fn consistent(self) -> bool {
        if self.count == 0 {
            self.total == 0 && self.min == 0 && self.max == 0
        } else {
            self.min <= self.max && self.min * self.count <= self.total && self.total <= self.max * self.count
        }
    }

    /// Whether one more call of `elapsed` fits the counters.
    pub open spec fn can_record(self, elapsed: u128) -> bool {
        self.count < u64::MAX && self.total + elapsed <= u128::MAX
    }

    /// Mean time per call.
    pub fn avg(&self) -> (r: u128)
        requires
            self.count == 0 || count_divisor(self.count) != 0,
        ensures
            r as int == self.avg_spec(),
    {
        if self.count == 0 {
            0
        } else {
            let d: u64 = self.count % 0x1_0000_0000;
            self.total / (d as u128)
        }
    }
}

/// Whether scope `x` comes before scope `y` in a report: a longer total
/// first, equal totals in recorded order.
pub open spec fn ranks_before(s: Seq<(Seq<char>, ScopeStats)>, x: usize, y: usize) -> bool {
    s[x as int].1.total > s[y as int].1.total || (s[x as int].1.total == s[y as int].1.total && x < y)
}

/// Stats of no calls.
pub open spec fn zero_stats() -> ScopeStats {
    ScopeStats { count: 0, total: 0, min: 0, max: 0 }
}

/// Recording a call keeps stats consistent: the minimum stays at most,
/// and the maximum at least, every call's time, so the total stays between
/// count times minimum and count times maximum. No calls are consistent.
pub proof fn law_record_keeps_stats_consistent(s: ScopeStats, elapsed: u128)
    requires
        s.consistent(),
        s.can_record(elapsed),
    ensures
        s.recorded(elapsed).consistent(),
        zero_stats().consistent(),
{
    let r = s.recorded(elapsed);
    let c = s.count as int;
    if c > 0 {
        let t = s.total as int;
        let mn = s.min as int;
        let mx = s.max as int;
        let e = elapsed as int;
        let mn2 = r.min as int;
        let mx2 = r.max as int;
        assert(mn2 <= mn && mn2 <= e);
        assert(mx2 >= mx && mx2 >= e);
        assert(mn2 * (c + 1) <= t + e) by (nonlinear_arith)
            requires mn2 <= mn, mn2 <= e, mn * c <= t, c > 0, mn2 >= 0;
        assert(t + e <= mx2 * (c + 1)) by (nonlinear_arith)
            requires mx2 >= mx, mx2 >= e, t <= mx * c, c > 0;
        assert(r.count as int == c + 1);
        assert(r.total as int == t + e);
    }
}

/// Stats of a scope after calls that took `times`, in order, recorded one
/// by one from none.
pub open spec fn replay(times: Seq<u128>) -> ScopeStats
    decreases times.len(),
{
    if times.len() == 0 {
        zero_stats()
    } else {
        replay(times.drop_last()).recorded(times.last())
    }
}

/// Sum of `times`.
pub open spec fn total_of(times: Seq<u128>) -> int
    decreases times.len(),
{
    if times.len() == 0 {
        0
    } else {
        total_of(times.drop_last()) + times.last()
    }
}

/// After calls that took `times`, a scope counts them all, totals them,
/// and keeps as minimum the shortest and as maximum the longest of them.
pub proof fn law_recorded_calls_give_count_total_min_max(times: Seq<u128>)
    requires
        times.len() > 0,
        times.len() <= u64::MAX,
        total_of(times) <= u128::MAX,
    ensures
        replay(times).count == times.len(),
        replay(times).total == total_of(times),
        exists|i: int| 0 <= i < times.len() && replay(times).min == times[i],
        forall|j: int| 0 <= j < times.len() ==> replay(times).min <= #[trigger] times[j],
        exists|i: int| 0 <= i < times.len() && replay(times).max == times[i],
        forall|j: int| 0 <= j < times.len() ==> #[trigger] times[j] <= replay(times).max,
    decreases times.len(),
{
    let init = times.drop_last();
    let e = times.last();
    let n = times.len() - 1;
    assert(times[n] == e);
    lemma_total_of_bound(times);
    if init.len() == 0 {
        assert(replay(init) == zero_stats());
        assert(replay(times) == zero_stats().recorded(e));
        assert(replay(times).min == times[0]);
        assert(replay(times).max == times[0]);
    } else {
        law_recorded_calls_give_count_total_min_max(init);
        let r0 = replay(init);
        let r = replay(times);
        assert(r == r0.recorded(e));
        assert(r0.count >= 1);
        let i0 = choose|i: int| 0 <= i < init.len() && r0.min == init[i];
        let k0 = choose|i: int| 0 <= i < init.len() && r0.max == init[i];
        assert(init[i0] == times[i0]);
        assert(init[k0] == times[k0]);
        if e < r0.min {
            assert(r.min == times[n]);
        } else {
            assert(r.min == times[i0]);
        }
        if e > r0.max {
            assert(r.max == times[n]);
        } else {
            assert(r.max == times[k0]);
        }
        assert forall|j: int| 0 <= j < times.len() implies r.min <= #[trigger] times[j] && times[j] <= r.max by {
            if j < n {
                assert(times[j] == init[j]);
            }
        }
    }
}

/// Each time counts towards the total, so a prefix's total is no larger.
proof fn lemma_total_of_bound(times: Seq<u128>)
    requires
        times.len() > 0,
    ensures
        total_of(times.drop_last()) <= total_of(times),
        total_of(times) == total_of(times.drop_last()) + times.last(),
{
}

/// Stats recorded under `name`, the first entry with that name.
pub open spec fn lookup(s: Seq<(Seq<char>, ScopeStats)>, name: Seq<char>) -> Option<ScopeStats>
    decreases s.len(),
{
    if s.len() == 0 {
        None
    } else if s[0].0 == name {
        Some(s[0].1)
    } else {
        lookup(s.drop_first(), name)
    }
}

/// The first entry named `name` is at `i`.
proof fn lemma_lookup_at(s: Seq<(Seq<char>, ScopeStats)>, i: int, name: Seq<char>)
    requires
        0 <= i < s.len(),
        s[i].0 == name,
        forall|j: int| 0 <= j < i ==> s[j].0 != name,
    ensures
        lookup(s, name) == Some(s[i].1),
    decreases s.len(),
{
    if i > 0 {
        lemma_lookup_at(s.drop_first(), i - 1, name);
    }
}

/// No entry is named `name`.
proof fn lemma_lookup_none(s: Seq<(Seq<char>, ScopeStats)>, name: Seq<char>)
    requires
        forall|j: int| 0 <= j < s.len() ==> s[j].0 != name,
    ensures
        lookup(s, name) is None,
    decreases s.len(),
{
    if s.len() > 0 {
        lemma_lookup_none(s.drop_first(), name);
    }
}

/// Replacing the stats of the first entry named `name` changes only what
/// `name` looks up.
proof fn lemma_lookup_update(s: Seq<(Seq<char>, ScopeStats)>, i: int, v: ScopeStats, n: Seq<char>)
    requires
        0 <= i < s.len(),
        forall|j: int| 0 <= j < i ==> s[j].0 != s[i].0,
    ensures
        lookup(s.update(i, (s[i].0, v)), n) == if n == s[i].0 { Some(v) } else { lookup(s, n) },
    decreases s.len(),
{
    let t = s.update(i, (s[i].0, v));
    if i > 0 {
        assert(t.drop_first() =~= s.drop_first().update(i - 1, (s[i].0, v)));
        assert(s.drop_first()[i - 1] == s[i]);
        assert forall|j: int| 0 <= j < i - 1 implies (#[trigger] s.drop_first()[j]).0 != s.drop_first()[i - 1].0 by {
            assert(s.drop_first()[j] == s[j + 1]);
        }
        lemma_lookup_update(s.drop_first(), i - 1, v, n);
        assert(t[0] == s[0]);
        assert(s[0].0 != s[i].0);
    } else {
        assert(t.drop_first() =~= s.drop_first());
    }
}

/// Appending an entry only adds a name not found before.
proof fn lemma_lookup_push(s: Seq<(Seq<char>, ScopeStats)>, x: (Seq<char>, ScopeStats), n: Seq<char>)
    ensures
        lookup(s.push(x), n) == if lookup(s, n) is Some { lookup(s, n) } else if x.0 == n { Some(x.1) } else { None },
    decreases s.len(),
{
    if s.len() > 0 {
        assert(s.push(x).drop_first() =~= s.drop_first().push(x));
        assert(s.push(x)[0] == s[0]);
        lemma_lookup_push(s.drop_first(), x, n);
    } else {
        assert(s.push(x).drop_first() =~= s);
    }
}

/// Collects per-scope timing statistics.
pub struct Profiler {
    scopes: Vec<(String, ScopeStats)>,
    stack: Vec<(String, std::time::Instant)>,
    enabled: bool,
}

impl Profiler {
    /// Recorded scopes with their stats, in first-recorded order.
    pub closed spec fn scopes_spec(&self) -> Seq<(Seq<char>, ScopeStats)> {
        self.scopes@.map_values(|p: (String, ScopeStats)| (p.0@, p.1))
    }

    /// Names of the scopes begun and not yet ended, innermost last.
    pub closed spec fn open_scopes(&self) -> Seq<Seq<char>> {
        self.stack@.map_values(|p: (String, std::time::Instant)| p.0@)
    }

    pub closed spec fn enabled_spec(&self) -> bool {
        self.enabled
    }

    /// Stats of scope `name`.
    pub open spec fn stats_of(&self, name: Seq<char>) -> Option<ScopeStats> {
        lookup(self.scopes_spec(), name)
    }

    /// What recording a call of `elapsed` under `name` does, when it fits.
    pub open spec fn record_post(p1: Profiler, p2: Profiler, name: Seq<char>, elapsed: u128) -> bool {
        let old_stats = match p1.stats_of(name) {
            Some(s) => s,
            None => zero_stats(),
        };
        &&& old_stats.can_record(elapsed) ==> p2.stats_of(name) == Some(old_stats.recorded(elapsed))
        &&& !old_stats.can_record(elapsed) ==> p2.stats_of(name) == p1.stats_of(name)
        &&& forall|n: Seq<char>| n != name ==> #[trigger] p2.stats_of(n) == p1.stats_of(n)
    }

    pub fn new() -> (p: Self)
        ensures
            p.scopes_spec() == Seq::<(Seq<char>, ScopeStats)>::empty(),
            p.open_scopes() == Seq::<Seq<char>>::empty(),
            p.enabled_spec(),
    {
        let p = Profiler { scopes: Vec::new(), stack: Vec::new(), enabled: true };
        proof {
            assert(p.scopes_spec() =~= Seq::<(Seq<char>, ScopeStats)>::empty());
            assert(p.open_scopes() =~= Seq::<Seq<char>>::empty());
        }
        p
    }

    /// The profiler with recording switched on or off.
    pub fn enabled(self, enabled: bool) -> (p: Self)
        ensures
            p.scopes_spec() == self.scopes_spec(),
            p.open_scopes() == self.open_scopes(),
            p.enabled_spec() == enabled,
    {
        let mut p = self;
        p.enabled = enabled;
        p
    }

    /// Opens scope `name`; ignored while disabled.
    pub fn begin(&mut self, name: &str)
        ensures
            final(self).scopes_spec() == old(self).scopes_spec(),
            final(self).enabled_spec() == old(self).enabled_spec(),
            final(self).open_scopes() == if old(self).enabled_spec() {
                old(self).open_scopes().push(name@)
            } else {
                old(self).open_scopes()
            },
    {
        if !self.enabled {
            return;
        }
        let start = instant_now();
        self.stack.push((name.to_owned(), start));
        proof {
            assert(self.open_scopes() =~= old(self).open_scopes().push(name@));
        }
    }

    /// Adds a call of `elapsed` to scope `name`, and returns whether it did:
    /// a call that would overflow the count or the total is not added.
    pub fn record(&mut self, name: String, elapsed: u128) -> (done: bool)
        ensures
            Self::record_post(*old(self), *final(self), name@, elapsed),
            done == match old(self).stats_of(name@) {
                Some(s) => s.can_record(elapsed),
                None => zero_stats().can_record(elapsed),
            },
            final(self).open_scopes() == old(self).open_scopes(),
            final(self).enabled_spec() == old(self).enabled_spec(),
    {
        let ghost s = self.scopes_spec();
        let n = self.scopes.len();
        let mut i: usize = 0;
        while i < n
            invariant
                n == self.scopes@.len(),
                s == self.scopes_spec(),
                *self == *old(self),
                i <= n,
                forall|j: int| 0 <= j < i ==> s[j].0 != name@,
            decreases n - i,
        {
            if str_eq(self.scopes[i].0.as_str(), name.as_str()) {
                proof {
                    assert(s[i as int] == (self.scopes@[i as int].0@, self.scopes@[i as int].1));
                    assert(s[i as int].0 == name@);
                    lemma_lookup_at(s, i as int, name@);
                }
                let st = self.scopes[i].1;
                if st.count == u64::MAX || elapsed > u128::MAX - st.total {
                    return false;
                }
                let count = st.count + 1;
                let new_stats = ScopeStats {
                    count,
                    total: st.total + elapsed,
                    min: if count == 1 || elapsed < st.min { elapsed } else { st.min },
                    max: if count == 1 || elapsed > st.max { elapsed } else { st.max },
                };
                let key = self.scopes[i].0.clone();
                self.scopes.set(i, (key, new_stats));
                proof {
                    assert(self.scopes_spec() =~= s.update(i as int, (s[i as int].0, new_stats)));
                    assert forall|m: Seq<char>| m != name@ implies #[trigger] self.stats_of(m) == old(self).stats_of(m) by {
                        lemma_lookup_update(s, i as int, new_stats, m);
                    }
                    lemma_lookup_update(s, i as int, new_stats, name@);
                }
                return true;
            }
            i = i + 1;
        }
        proof {
            lemma_lookup_none(s, name@);
        }
        let z = ScopeStats { count: 0, total: 0, min: 0, max: 0 };
        let fresh = ScopeStats { count: 1, total: elapsed, min: elapsed, max: elapsed };
        let ghost x = (name@, fresh);
        self.scopes.push((name, fresh));
        proof {
            assert(self.scopes_spec() =~= s.push(x));
            assert(fresh == z.recorded(elapsed));
            lemma_lookup_push(s, x, name@);
            assert forall|m: Seq<char>| m != name@ implies #[trigger] self.stats_of(m) == old(self).stats_of(m) by {
                lemma_lookup_push(s, x, m);
            }
        }
        true
    }

    /// Closes the innermost scope and adds its time to its stats (see
    /// `record`); ignored while disabled or with no scope open.
    pub fn end(&mut self)
        ensures
            final(self).enabled_spec() == old(self).enabled_spec(),
            !old(self).enabled_spec() || old(self).open_scopes().len() == 0 ==> {
                &&& final(self).scopes_spec() == old(self).scopes_spec()
                &&& final(self).open_scopes() == old(self).open_scopes()
            },
            old(self).enabled_spec() && old(self).open_scopes().len() > 0 ==> {
                &&& final(self).open_scopes() == old(self).open_scopes().drop_last()
                &&& exists|elapsed: u128| #[trigger] Self::record_post(*old(self), *final(self), old(self).open_scopes().last(), elapsed)
            },
    {
        if !self.enabled {
            return;
        }
        let ghost before = *self;
        match self.stack.pop() {
            Some(top) => {
                let (name, start) = top;
                proof {
                    assert(self.open_scopes() =~= before.open_scopes().drop_last());
                    assert(name@ == before.open_scopes().last());
                }
                let elapsed = elapsed_nanos(&start);
                let ghost mid = *self;
                self.record(name, elapsed);
                proof {
                    assert(mid.scopes_spec() == before.scopes_spec());
                    assert forall|n: Seq<char>| #[trigger] mid.stats_of(n) == before.stats_of(n) by {}
                    assert(Self::record_post(before, *self, before.open_scopes().last(), elapsed));
                }
            },
            None => {},
        }
    }

    /// Stats of scope `name`, if it was ever recorded.
    pub fn get(&self, name: &str) -> (r: Option<&ScopeStats>)
        ensures
            r matches Some(s) ==> self.stats_of(name@) == Some(*s),
            r is None ==> self.stats_of(name@) is None,
    {
        let ghost s = self.scopes_spec();
        let n = self.scopes.len();
        let mut i: usize = 0;
        while i < n
            invariant
                n == self.scopes@.len(),
                s == self.scopes_spec(),
                i <= n,
                forall|j: int| 0 <= j < i ==> s[j].0 != name@,
            decreases n - i,
        {
            if str_eq(self.scopes[i].0.as_str(), name) {
                proof {
                    lemma_lookup_at(s, i as int, name@);
                }
                return Some(&self.scopes[i].1);
            }
            i = i + 1;
        }
        proof {
            lemma_lookup_none(s, name@);
        }
        None
    }

    /// Forgets all stats and open scopes.
    pub fn reset(&mut self)
        ensures
            final(self).scopes_spec() == Seq::<(Seq<char>, ScopeStats)>::empty(),
            final(self).open_scopes() == Seq::<Seq<char>>::empty(),
            final(self).enabled_spec() == old(self).enabled_spec(),
    {
        self.scopes.clear();
        self.stack.clear();
        proof {
            assert(self.scopes_spec() =~= Seq::<(Seq<char>, ScopeStats)>::empty());
            assert(self.open_scopes() =~= Seq::<Seq<char>>::empty());
        }
    }

    pub fn set_enabled(&mut self, enabled: bool)
        ensures
            final(self).enabled_spec() == enabled,
            final(self).scopes_spec() == old(self).scopes_spec(),
            final(self).open_scopes() == old(self).open_scopes(),
    {
        self.enabled = enabled;
    }

    pub fn is_enabled(&self) -> (b: bool)
        ensures
            b == self.enabled_spec(),
    {
        self.enabled
    }

    /// Number of recorded scopes.
    pub fn scope_count(&self) -> (n: usize)
        ensures
            n == self.scopes_spec().len(),
    {
        self.scopes.len()
    }

    /// Name and stats of the recorded scope at position `i`.
    pub fn scope_at(&self, i: usize) -> (r: (&str, ScopeStats))
        requires
            (i as int) < self.scopes_spec().len(),
        ensures
            r.0@ == self.scopes_spec()[i as int].0,
            r.1 == self.scopes_spec()[i as int].1,
    {
        (self.scopes[i].0.as_str(), self.scopes[i].1)
    }

    /// Positions of the recorded scopes ordered by total time, longest
    /// first; scopes with equal totals keep their recorded order.
    pub fn report_order(&self) -> (order: Vec<usize>)
        ensures
            order@.len() == self.scopes_spec().len(),
            forall|i: int| 0 <= i < order@.len() ==> (#[trigger] order@[i] as int) < self.scopes_spec().len(),
            forall|i: int, j: int| 0 <= i < j < order@.len() ==> order@[i] != order@[j],
            forall|i: int, j: int| #![trigger order@[i], order@[j]] 0 <= i < j < order@.len() ==> ranks_before(self.scopes_spec(), order@[i], order@[j]),
    {
        let ghost s = self.scopes_spec();
        let n = self.scopes.len();
        let mut order: Vec<usize> = Vec::new();
        let mut k: usize = 0;
        while k < n
            invariant
                n == self.scopes@.len(),
                s == self.scopes_spec(),
                k <= n,
                order@.len() == k,
                forall|i: int| 0 <= i < order@.len() ==> (#[trigger] order@[i] as int) < k,
                forall|i: int, j: int| 0 <= i < j < order@.len() ==> order@[i] != order@[j],
                forall|i: int, j: int| #![trigger order@[i], order@[j]] 0 <= i < j < order@.len() ==> ranks_before(s, order@[i], order@[j]),
            decreases n - k,
        {
            let t = self.scopes[k].1.total;
            // insert after every entry whose total is at least `t`
            let mut pos: usize = 0;
            while pos < order.len() && self.scopes[order[pos]].1.total >= t
                invariant
                    n == self.scopes@.len(),
                    s == self.scopes_spec(),
                    k < n,
                    t == s[k as int].1.total,
                    pos <= order@.len(),
                    forall|i: int| 0 <= i < order@.len() ==> (#[trigger] order@[i] as int) < k,
                    forall|i: int, j: int| 0 <= i < j < order@.len() ==> order@[i] != order@[j],
                    forall|i: int, j: int| #![trigger order@[i], order@[j]] 0 <= i < j < order@.len() ==> ranks_before(s, order@[i], order@[j]),
                    forall|i: int| 0 <= i < pos ==> s[(#[trigger] order@[i]) as int].1.total >= t,
                decreases order@.len() - pos,
            {
                pos = pos + 1;
            }
            let ghost before = order@;
            proof {
                // entries after `pos` have a smaller total: the order is sorted
                assert forall|i: int| pos <= i < order@.len() implies s[(#[trigger] order@[i]) as int].1.total < t by {
                    if i > pos {
                        assert(ranks_before(s, order@[pos as int], order@[i]));
                    }
                }
            }
            order.insert(pos, k);
            proof {
                assert forall|i: int| 0 <= i < order@.len() implies (#[trigger] order@[i] as int) < k + 1 by {
                    if i < pos {
                        assert(order@[i] == before[i]);
                    } else if i > pos {
                        assert(order@[i] == before[i - 1]);
                    }
                }
                assert forall|i: int, j: int| 0 <= i < j < order@.len() implies order@[i] != order@[j] by {
                    if i < pos {
                        assert(order@[i] == before[i]);
                    } else if i > pos {
                        assert(order@[i] == before[i - 1]);
                    }
                    if j < pos {
                        assert(order@[j] == before[j]);
                    } else if j > pos {
                        assert(order@[j] == before[j - 1]);
                    }
                }
                assert forall|i: int, j: int| #![trigger order@[i], order@[j]] 0 <= i < j < order@.len() implies ranks_before(s, order@[i], order@[j]) by {
                    if i < pos {
                        assert(order@[i] == before[i]);
                    } else if i > pos {
                        assert(order@[i] == before[i - 1]);
                    }
                    if j < pos {
                        assert(order@[j] == before[j]);
                    } else if j > pos {
                        assert(order@[j] == before[j - 1]);
                    }
                }
            }
            k = k + 1;
        }
        order
    }
}

impl Default for Profiler {
    fn default() -> (p: Self)
        ensures
            p.scopes_spec() == Seq::<(Seq<char>, ScopeStats)>::empty(),
            p.open_scopes() == Seq::<Seq<char>>::empty(),
            p.enabled_spec(),
    {
        Self::new()
    }
}

/// `s` when it has at most `max_len` bytes; else its first `max_len - 3`
/// bytes followed by `...`.
pub fn truncate(s: &str, max_len: usize) -> (r: String)
    requires
        s.spec_bytes().len() <= usize::MAX,
        s.spec_bytes().len() > max_len ==> max_len >= 3 && vstd::utf8::is_char_boundary(s.spec_bytes(), max_len - 3),
    ensures
        s.spec_bytes().len() <= max_len ==> r@ == s@,
        s.spec_bytes().len() > max_len ==> r@ == decode_utf8(s.spec_bytes().subrange(0, max_len - 3)) + "..."@,
{
    if s.len() <= max_len {
        s.to_owned()
    } else {
        let (head, _) = s.split_at(max_len - 3);
        let mut r = head.to_owned();
        r.append("...");
        proof {
            encode_utf8_decode_utf8(head@);
            assert(head.spec_bytes() == encode_utf8(head@));
            assert(head.spec_bytes() == s.spec_bytes().subrange(0, max_len - 3));
            assert(decode_utf8(s.spec_bytes().subrange(0, max_len - 3)) == head@);
            assert(r@ == head@ + "..."@);
            assert(r@ == decode_utf8(s.spec_bytes().subrange(0, max_len - 3)) + "..."@);
        }
        r
    }
}


/// One line of the profiler's table: a scope's name as shown, its call count,
/// and its average, minimum and maximum times as they are to be printed.
pub struct ReportRow {
    pub name: String,
    pub calls: u64,
    pub avg: String,
    pub min: String,
    pub max: String,
}

/// `n` spaces.
pub open spec fn blanks(n: nat) -> Seq<char> {
    Seq::new(n, |i: int| ' ')
}

/// `s` right-aligned in a field of `width` characters.
pub open spec fn pad_start(s: Seq<char>, width: nat) -> Seq<char> {
    if s.len() >= width { s } else { blanks((width - s.len()) as nat) + s }
}

/// `s` left-aligned in a field of `width` characters.
pub open spec fn pad_end(s: Seq<char>, width: nat) -> Seq<char> {
    if s.len() >= width { s } else { s + blanks((width - s.len()) as nat) }
}

/// The table line of one row: name in 25 columns, calls in 10, each time
/// in 12, one space between fields and two before the first.
pub open spec fn row_text(r: ReportRow) -> Seq<char> {
    "  "@ + pad_end(r.name@, 25) + " "@ + pad_start(decimal(r.calls as nat), 10) + " "@ + pad_start(r.avg@, 12)
        + " "@ + pad_start(r.min@, 12) + " "@ + pad_start(r.max@, 12)
}

/// `lines` with a newline between each two.
pub open spec fn joined(lines: Seq<Seq<char>>) -> Seq<char>
    decreases lines.len(),
{
    if lines.len() == 0 {
        Seq::empty()
    } else if lines.len() == 1 {
        lines[0]
    } else {
        joined(lines.drop_last()) + "\n"@ + lines.last()
    }
}

/// The report's title box.
pub open spec fn banner() -> Seq<Seq<char>> {
    seq![
        "╔═══════════════════════════════════════════════════════════════╗"@,
        "║                    PROFILER REPORT                            ║"@,
        "╚═══════════════════════════════════════════════════════════════╝"@,
    ]
}

/// The report's lines: the title box, then either a note that nothing was
/// recorded or the column heads, a rule and one line per row.
pub open spec fn report_lines(rows: Seq<ReportRow>) -> Seq<Seq<char>> {
    if rows.len() == 0 {
        banner().push("  No data collected."@)
    } else {
        banner() + seq![
            "  Scope                          Calls          Avg          Min          Max"@,
            "  ─────────────────────────────────────────────────────────────────────────"@,
        ] + rows.map_values(|r: ReportRow| row_text(r))
    }
}

/// Appends `n` spaces.
fn append_blanks(out: &mut String, n: usize)
    ensures
        final(out)@ == old(out)@ + blanks(n as nat),
{
    proof {
        reveal_strlit(" ");
        assert(old(out)@ + blanks(0) =~= old(out)@);
    }
    let mut i: usize = 0;
    while i < n
        invariant
            i <= n,
            out@ == old(out)@ + blanks(i as nat),
        decreases n - i,
    {
        out.append(" ");
        proof {
            reveal_strlit(" ");
            assert(old(out)@ + blanks(i as nat) + " "@ =~= old(out)@ + blanks((i + 1) as nat));
        }
        i = i + 1;
    }
}

/// Appends `s` left- or right-aligned in a field of `width` characters.
fn append_field(out: &mut String, s: &str, width: usize, left: bool)
    ensures
        final(out)@ == old(out)@ + if left { pad_end(s@, width as nat) } else { pad_start(s@, width as nat) },
{
    let n = s.unicode_len();
    if left {
        out.append(s);
        if n < width {
            append_blanks(out, width - n);
        }
        proof {
            assert(old(out)@ + s@ + blanks((width - n) as nat) =~= old(out)@ + (s@ + blanks((width - n) as nat)));
        }
    } else {
        if n < width {
            append_blanks(out, width - n);
        }
        out.append(s);
        proof {
            assert(old(out)@ + blanks((width - n) as nat) + s@ =~= old(out)@ + (blanks((width - n) as nat) + s@));
        }
    }
}

/// Appends the table line of `row`.
fn append_row(out: &mut String, row: &ReportRow)
    ensures
        final(out)@ == old(out)@ + row_text(*row),
{
    out.append("  ");
    append_field(out, row.name.as_str(), 25, true);
    out.append(" ");
    let calls = decimal_string(row.calls);
    append_field(out, calls.as_str(), 10, false);
    out.append(" ");
    append_field(out, row.avg.as_str(), 12, false);
    out.append(" ");
    append_field(out, row.min.as_str(), 12, false);
    out.append(" ");
    append_field(out, row.max.as_str(), 12, false);
    proof {
        let r = *row;
        assert(out@ =~= old(out)@ + row_text(r));
    }
}

/// The profiler's report text for `rows`, given in the order they are to
/// be listed.
pub fn render_report(rows: &Vec<ReportRow>) -> (r: String)
    ensures
        r@ == joined(report_lines(rows@)),
{
    let ghost lines = report_lines(rows@);
    let mut out = String::from_str("╔═══════════════════════════════════════════════════════════════╗");
    out.append("\n");
    out.append("║                    PROFILER REPORT                            ║");
    out.append("\n");
    out.append("╚═══════════════════════════════════════════════════════════════╝");
    proof {
        reveal_with_fuel(joined, 3);
        assert(lines.take(3) =~= banner());
        assert(joined(banner().take(1)) == banner()[0]);
        assert(banner().take(2).drop_last() =~= banner().take(1));
        assert(banner().take(3).drop_last() =~= banner().take(2));
        assert(banner().take(3) =~= banner());
        assert(out@ == joined(lines.take(3)));
    }
    if rows.len() == 0 {
        out.append("\n");
        out.append("  No data collected.");
        proof {
            assert(lines.take(4) =~= lines);
            assert(lines.drop_last() =~= lines.take(3));
        }
        return out;
    }
    out.append("\n");
    out.append("  Scope                          Calls          Avg          Min          Max");
    proof {
        assert(lines.take(4).drop_last() =~= lines.take(3));
    }
    out.append("\n");
    out.append("  ─────────────────────────────────────────────────────────────────────────");
    proof {
        assert(lines.take(5).drop_last() =~= lines.take(4));
    }
    let n = rows.len();
    let mut i: usize = 0;
    while i < n
        invariant
            n == rows@.len(),
            n > 0,
            i <= n,
            lines == report_lines(rows@),
            lines.len() == 5 + n,
            out@ == joined(lines.take(5 + i)),
        decreases n - i,
    {
        out.append("\n");
        append_row(&mut out, &rows[i]);
        proof {
            assert(lines[5 + i] == row_text(rows@[i as int]));
            assert(lines.take(5 + i + 1).drop_last() =~= lines.take(5 + i));
            assert(lines.take(5 + i + 1).last() == lines[5 + i]);
        }
        i = i + 1;
    }
    proof {
        assert(lines.take(5 + n) =~= lines);
    }
    out
}

} // verus!
