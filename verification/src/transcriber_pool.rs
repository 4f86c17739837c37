//! Which transcriber a request goes to.

use vstd::prelude::*;

use crate::chars;
use crate::text;

verus! {

/// The transcribers, and how many requests each of them works on.
pub struct TranscriberPool {
    urls: Vec<String>,
    inflight: Vec<usize>,
    rr: usize,
}

/// A request's claim on a transcriber.
pub struct TranscriberLease {
    url: String,
    idx: usize,
}

impl TranscriberLease {
    pub closed spec fn address(&self) -> Seq<char> {
        self.url@
    }

    /// Which transcriber of the pool it is.
    pub closed spec fn place(&self) -> usize {
        self.idx
    }

    pub fn url(&self) -> (r: &str)
        ensures
            r@ == self.address(),
    {
        self.url.as_str()
    }
}

/// The addresses that are not blank.
pub open spec fn usable_urls(urls: Seq<Seq<char>>) -> Seq<Seq<char>>
    decreases urls.len(),
{
    if urls.len() == 0 {
        Seq::empty()
    } else {
        let before = usable_urls(urls.drop_last());
        if chars::trimmed(urls.last()).len() == 0 {
            before
        } else {
            before.push(urls.last())
        }
    }
}

/// The place `offset` places behind `start`, round and round.
pub open spec fn place_behind(start: int, offset: int, n: int) -> int {
    if start + offset < n {
        start + offset
    } else {
        start + offset - n
    }
}

/// The first place with the fewest requests among the first `k` places from
/// `start` on.
pub open spec fn least_busy(inflight: Seq<usize>, start: int, k: nat) -> int
    decreases k,
{
    if k <= 1 {
        start
    } else {
        let best = least_busy(inflight, start, (k - 1) as nat);
        let next = place_behind(start, k - 1, inflight.len() as int);
        if inflight[next] < inflight[best] {
            next
        } else {
            best
        }
    }
}

proof fn lemma_least_busy(inflight: Seq<usize>, start: int, k: nat)
    requires
        0 <= start < inflight.len(),
        1 <= k <= inflight.len(),
    ensures
        ({
            let best = least_busy(inflight, start, k);
            exists|b: int|
                #![trigger place_behind(start, b, inflight.len() as int)]
                {
                    &&& 0 <= b < k
                    &&& best == place_behind(start, b, inflight.len() as int)
                    &&& forall|j: int|
                        0 <= j < k ==> inflight[best] <= inflight[#[trigger] place_behind(
                            start,
                            j,
                            inflight.len() as int,
                        )]
                    &&& forall|j: int|
                        0 <= j < b ==> inflight[best] < inflight[#[trigger] place_behind(
                            start,
                            j,
                            inflight.len() as int,
                        )]
                }
        }),
    decreases k,
{
    let n = inflight.len() as int;
    if k == 1 {
        assert(place_behind(start, 0, n) == start);
    } else {
        lemma_least_busy(inflight, start, (k - 1) as nat);
        let before = least_busy(inflight, start, (k - 1) as nat);
        let next = place_behind(start, k - 1, n);
        if inflight[next] < inflight[before] {
            assert(least_busy(inflight, start, k) == place_behind(start, k - 1, n));
        }
    }
}

/// No transcriber has fewer requests than the chosen one, and those that are
/// looked at before it have more.
pub proof fn law_chosen_is_least_busy(inflight: Seq<usize>, start: int)
    requires
        0 <= start < inflight.len(),
    ensures
        ({
            let best = least_busy(inflight, start, inflight.len());
            &&& 0 <= best < inflight.len()
            &&& forall|i: int| 0 <= i < inflight.len() ==> inflight[best] <= #[trigger] inflight[i]
            &&& exists|b: int|
                #![trigger place_behind(start, b, inflight.len() as int)]
                {
                    &&& 0 <= b < inflight.len()
                    &&& best == place_behind(start, b, inflight.len() as int)
                    &&& forall|j: int|
                        0 <= j < b ==> inflight[best] < inflight[#[trigger] place_behind(
                            start,
                            j,
                            inflight.len() as int,
                        )]
                }
        }),
{
    let n = inflight.len() as int;
    lemma_least_busy(inflight, start, inflight.len());
    let best = least_busy(inflight, start, inflight.len());
    assert forall|i: int| 0 <= i < n implies inflight[best] <= #[trigger] inflight[i] by {
        let j = if i >= start {
            i - start
        } else {
            i - start + n
        };
        assert(place_behind(start, j, n) == i);
    }
}

impl TranscriberPool {
    pub closed spec fn wf(&self) -> bool {
        self.urls@.len() == self.inflight@.len()
    }

    pub closed spec fn addresses(&self) -> Seq<Seq<char>> {
        chars::views(self.urls@)
    }

    /// How many requests each transcriber works on.
    pub closed spec fn loads(&self) -> Seq<usize> {
        self.inflight@
    }

    /// Where the search for the next request begins, counted on and on.
    pub closed spec fn turn(&self) -> usize {
        self.rr
    }

    pub fn new(urls: Vec<String>) -> (r: Self)
        ensures
            r.wf(),
            r.addresses() == usable_urls(chars::views(urls@)),
            r.loads() == Seq::new(r.addresses().len(), |i: int| 0usize),
            r.turn() == 0,
    {
        let ghost all = chars::views(urls@);
        let mut kept: Vec<String> = Vec::new();
        let mut inflight: Vec<usize> = Vec::new();
        let mut i: usize = 0;
        assert(chars::views(kept@) =~= usable_urls(all.take(0)));
        while i < urls.len()
            invariant
                i <= urls@.len(),
                all == chars::views(urls@),
                chars::views(kept@) == usable_urls(all.take(i as int)),
                inflight@.len() == kept@.len(),
                forall|j: int| 0 <= j < inflight@.len() ==> inflight@[j] == 0,
            decreases urls@.len() - i,
        {
            proof {
                assert(all.take(i as int + 1).drop_last() =~= all.take(i as int));
                assert(all.take(i as int + 1).last() == urls@[i as int]@);
            }
            let ghost before = kept@;
            if !text::is_blank(chars::trim(urls[i].as_str()).as_str()) {
                let u = urls[i].as_str().to_owned();
                kept.push(u);
                inflight.push(0);
                assert(chars::views(kept@) =~= chars::views(before).push(all[i as int]));
            }
            i = i + 1;
        }
        proof {
            assert(all.take(i as int) =~= all);
        }
        let r = TranscriberPool { urls: kept, inflight, rr: 0 };
        assert(r.loads() =~= Seq::new(r.addresses().len(), |i: int| 0usize));
        r
    }

    pub fn urls(&self) -> (r: &[String])
        ensures
            chars::views(r@) == self.addresses(),
    {
        self.urls.as_slice()
    }

    /// Claims the transcriber with the fewest requests, the first such one from a
    /// place that moves on with each claim.
    pub fn pick(&mut self) -> (r: TranscriberLease)
        requires
            old(self).wf(),
        ensures
            final(self).wf(),
            final(self).addresses() == old(self).addresses(),
            ({
                let n = old(self).addresses().len() as int;
                if n == 0 {
                    &&& r.address() == "http://transcriber:9000"@
                    &&& r.place() == 0
                    &&& final(self).loads() == old(self).loads()
                    &&& final(self).turn() == old(self).turn()
                } else {
                    let best = least_busy(old(self).loads(), old(self).turn() as int % n, n as nat);
                    &&& r.place() == best
                    &&& r.address() == old(self).addresses()[best]
                    &&& final(self).loads() == old(self).loads().update(
                        best,
                        old(self).loads()[best].wrapping_add(1),
                    )
                    &&& final(self).turn() == old(self).turn().wrapping_add(1)
                }
            }),
    {
        let n: usize = self.urls.len();
        if n == 0 {
            return TranscriberLease { url: "http://transcriber:9000".to_owned(), idx: 0 };
        }
        let start: usize = self.rr % n;
        self.rr = self.rr.wrapping_add(1);
        let mut best: usize = start;
        let mut k: usize = 1;
        while k < n
            invariant
                n == self.inflight@.len(),
                self.inflight@.len() == self.urls@.len(),
                start < n,
                1 <= k <= n,
                best < n,
                best == least_busy(self.inflight@, start as int, k as nat),
                self.urls == old(self).urls,
                self.inflight == old(self).inflight,
                self.rr == old(self).rr.wrapping_add(1),
            decreases n - k,
        {
            let next: usize = if k < n - start {
                start + k
            } else {
                k - (n - start)
            };
            if self.inflight[next] < self.inflight[best] {
                best = next;
            }
            k = k + 1;
        }
        let more: usize = self.inflight[best].wrapping_add(1);
        self.inflight.set(best, more);
        proof {
            assert(self.addresses()[best as int] == self.urls@[best as int]@);
        }
        TranscriberLease { url: self.urls[best].as_str().to_owned(), idx: best }
    }

    /// Gives up a claim.
    pub fn release(&mut self, lease: TranscriberLease)
        requires
            old(self).wf(),
        ensures
            final(self).wf(),
            final(self).addresses() == old(self).addresses(),
            final(self).turn() == old(self).turn(),
            final(self).loads() == (if lease.place() < old(self).loads().len() {
                old(self).loads().update(
                    lease.place() as int,
                    old(self).loads()[lease.place() as int].wrapping_sub(1),
                )
            } else {
                old(self).loads()
            }),
    {
        if lease.idx < self.inflight.len() {
            let fewer: usize = self.inflight[lease.idx].wrapping_sub(1);
            self.inflight.set(lease.idx, fewer);
        }
    }
}

/// Giving up a claim undoes what claiming did to the loads.
pub proof fn law_release_undoes_claim(loads: Seq<usize>, place: int)
    requires
        0 <= place < loads.len(),
    ensures
        ({
            let claimed = loads.update(place, loads[place].wrapping_add(1));
            claimed.update(place, claimed[place].wrapping_sub(1)) == loads
        }),
{
    let claimed = loads.update(place, loads[place].wrapping_add(1));
    assert(claimed.update(place, claimed[place].wrapping_sub(1)) =~= loads);
}

/// The addresses in use are those that are not blank.
pub proof fn law_blank_urls_are_left_out(urls: Seq<Seq<char>>)
    ensures
        usable_urls(urls) == urls.filter(|u: Seq<char>| chars::trimmed(u).len() > 0),
    decreases urls.len(),
{
    reveal(Seq::filter);
    if urls.len() > 0 {
        law_blank_urls_are_left_out(urls.drop_last());
    }
}

/// While all are equally busy, they are taken in turn.
pub proof fn law_equally_busy_are_taken_in_turn(inflight: Seq<usize>, start: int)
    requires
        0 <= start < inflight.len(),
        forall|i: int, j: int|
            0 <= i < inflight.len() && 0 <= j < inflight.len() ==> #[trigger] inflight[i] == #[trigger] inflight[j],
    ensures
        least_busy(inflight, start, inflight.len()) == start,
{
    law_chosen_is_least_busy(inflight, start);
    let n = inflight.len() as int;
    let best = least_busy(inflight, start, inflight.len());
    let b = choose|b: int|
        #![trigger place_behind(start, b, n)]
        {
            &&& 0 <= b < n
            &&& best == place_behind(start, b, n)
            &&& forall|j: int| 0 <= j < b ==> inflight[best] < inflight[#[trigger] place_behind(start, j, n)]
        };
    if b > 0 {
        assert(inflight[best] < inflight[place_behind(start, 0, n)]);
    }
}

} // verus!
