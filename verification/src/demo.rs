//! The limit on requests to the demonstration.

use vstd::hash_map::StringHashMap;
use vstd::prelude::*;

verus! {

/// A minute in nanoseconds.
pub const MINUTE_NS: u64 = 60_000_000_000;

/// Lets each client make so many requests a minute.
pub struct DemoRateLimiter {
    inner: StringHashMap<Vec<u64>>,
    max_per_min: usize,
}

/// The times less than a minute before `now`.
pub open spec fn within_minute(times: Seq<u64>, now: u64) -> Seq<u64>
    decreases times.len(),
{
    if times.len() == 0 {
        Seq::empty()
    } else {
        let before = within_minute(times.drop_last(), now);
        if times.last() + MINUTE_NS > now {
            before.push(times.last())
        } else {
            before
        }
    }
}

/// A request at `now` is let through after those at `times`.
pub open spec fn has_room(times: Seq<u64>, limit: usize, now: u64) -> bool {
    within_minute(times, now).len() < limit
}

/// What is remembered of requests at `times` after one more at `now`.
pub open spec fn after_request(times: Seq<u64>, limit: usize, now: u64) -> Seq<u64> {
    if has_room(times, limit, now) {
        within_minute(times, now).push(now)
    } else {
        within_minute(times, now)
    }
}

fn keep_recent(times: &[u64], now: u64) -> (r: Vec<u64>)
    ensures
        r@ == within_minute(times@, now),
{
    let mut out: Vec<u64> = Vec::new();
    let mut i: usize = 0;
    while i < times.len()
        invariant
            i <= times@.len(),
            out@ == within_minute(times@.take(i as int), now),
        decreases times@.len() - i,
    {
        assert(times@.take(i as int + 1).drop_last() =~= times@.take(i as int));
        let t: u64 = times[i];
        if t >= now || now - t < MINUTE_NS {
            out.push(t);
        }
        i = i + 1;
    }
    assert(times@.take(i as int) =~= times@);
    out
}

impl DemoRateLimiter {
    pub closed spec fn limit(&self) -> usize {
        self.max_per_min
    }

    /// The remembered times of a client's requests.
    pub closed spec fn times(&self, key: Seq<char>) -> Seq<u64> {
        if self.inner@.contains_key(key) {
            self.inner@[key]@
        } else {
            Seq::empty()
        }
    }

    pub fn new(max_per_min: usize) -> (r: Self)
        ensures
            r.limit() == max_per_min,
            forall|key: Seq<char>| #[trigger] r.times(key) == Seq::<u64>::empty(),
    {
        DemoRateLimiter { inner: StringHashMap::new(), max_per_min }
    }

    /// Whether the client may make a request at `now`, which is remembered then.
    pub fn check(&mut self, key: &str, now: u64) -> (r: bool)
        ensures
            final(self).limit() == old(self).limit(),
            r == has_room(old(self).times(key@), old(self).limit(), now),
            final(self).times(key@) == after_request(old(self).times(key@), old(self).limit(), now),
            forall|other: Seq<char>| other != key@ ==> #[trigger] final(self).times(other) == old(self).times(other),
    {
        let mut recent: Vec<u64> = match self.inner.get(key) {
            Some(times) => keep_recent(times, now),
            None => Vec::new(),
        };
        assert(recent@ =~= within_minute(self.times(key@), now));
        let admitted: bool = recent.len() < self.max_per_min;
        if admitted {
            recent.push(now);
        }
        self.inner.insert(key.to_owned(), recent);
        admitted
    }
}

/// What is remembered after requests at these times.
pub open spec fn remembered(requests: Seq<u64>, limit: usize) -> Seq<u64>
    decreases requests.len(),
{
    if requests.len() == 0 {
        Seq::empty()
    } else {
        after_request(remembered(requests.drop_last(), limit), limit, requests.last())
    }
}

/// The requests that are let through.
pub open spec fn let_through(requests: Seq<u64>, limit: usize) -> Seq<u64>
    decreases requests.len(),
{
    if requests.len() == 0 {
        Seq::empty()
    } else {
        let before = let_through(requests.drop_last(), limit);
        if has_room(remembered(requests.drop_last(), limit), limit, requests.last()) {
            before.push(requests.last())
        } else {
            before
        }
    }
}

pub open spec fn in_order(requests: Seq<u64>, now: u64) -> bool {
    forall|i: int, j: int|
        0 <= i <= j < requests.len() ==> #[trigger] requests[i] <= #[trigger] requests[j] && requests[j] <= now
}

proof fn lemma_within_shrinks(times: Seq<u64>, now: u64)
    ensures
        within_minute(times, now).len() <= times.len(),
    decreases times.len(),
{
    if times.len() > 0 {
        lemma_within_shrinks(times.drop_last(), now);
    }
}

proof fn lemma_within_push(times: Seq<u64>, t: u64, now: u64)
    ensures
        within_minute(times.push(t), now) == (if t + MINUTE_NS > now {
            within_minute(times, now).push(t)
        } else {
            within_minute(times, now)
        }),
{
    assert(times.push(t).drop_last() =~= times);
}

proof fn lemma_within_twice(times: Seq<u64>, earlier: u64, now: u64)
    requires
        earlier <= now,
    ensures
        within_minute(within_minute(times, earlier), now) == within_minute(times, now),
    decreases times.len(),
{
    if times.len() > 0 {
        lemma_within_twice(times.drop_last(), earlier, now);
        lemma_within_push(within_minute(times.drop_last(), earlier), times.last(), now);
    }
}

proof fn lemma_remembered(requests: Seq<u64>, limit: usize, now: u64)
    requires
        in_order(requests, now),
    ensures
        remembered(requests, limit).len() <= limit,
        within_minute(remembered(requests, limit), now) == within_minute(let_through(requests, limit), now),
    decreases requests.len(),
{
    if requests.len() > 0 {
        let before = requests.drop_last();
        let last = requests.last();
        assert forall|i: int, j: int| 0 <= i <= j < before.len() implies #[trigger] before[i]
            <= #[trigger] before[j] && before[j] <= last by {
            assert(requests[i] <= requests[j]);
            assert(requests[j] <= requests[requests.len() - 1]);
        }
        lemma_remembered(before, limit, last);
        assert(last <= now);
        let known = remembered(before, limit);
        let recent = within_minute(known, last);
        lemma_within_shrinks(known, last);
        lemma_within_twice(known, last, now);
        lemma_within_twice(let_through(before, limit), last, now);
        lemma_within_push(recent, last, now);
        lemma_within_push(let_through(before, limit), last, now);
    }
}

/// However many requests a client makes, in no minute are more let through than
/// the limit.
pub proof fn law_limit_holds_in_every_minute(requests: Seq<u64>, limit: usize, now: u64)
    requires
        in_order(requests, now),
    ensures
        within_minute(let_through(requests, limit), now).len() <= limit,
{
    lemma_remembered(requests, limit, now);
    lemma_within_shrinks(remembered(requests, limit), now);
}

/// The times within the minute are those less than sixty thousand million nanoseconds
/// ago.
pub proof fn law_minute_is_sixty_seconds(times: Seq<u64>, now: u64)
    ensures
        within_minute(times, now) == times.filter(|t: u64| now - t < 60_000_000_000),
    decreases times.len(),
{
    reveal(Seq::filter);
    if times.len() > 0 {
        law_minute_is_sixty_seconds(times.drop_last(), now);
    }
}

/// A request passes exactly if fewer than the limit passed in the minute before it. It
/// then counts itself; one that is refused does not.
pub proof fn law_requests_pass_up_to_the_limit(times: Seq<u64>, limit: usize, now: u64)
    ensures
        ({
            let recent = times.filter(|t: u64| now - t < 60_000_000_000);
            &&& has_room(times, limit, now) <==> recent.len() < limit
            &&& recent.len() < limit ==> after_request(times, limit, now) == recent.push(now)
            &&& recent.len() >= limit ==> after_request(times, limit, now) == recent
        }),
{
    law_minute_is_sixty_seconds(times, now);
}

} // verus!
