//! Alignment of heard words with a stretch of the reference, at least cost,
//! within a band around the expected diagonal.

use vstd::prelude::*;

use crate::confusion;
use crate::confusion::{ConfusionModel, ExchangeCosts};
use crate::scalar;
use crate::scalar::Scalar;

verus! {

/// Where a stretch of the reference was proposed from.
#[derive(Clone, Copy, Debug, PartialEq, Eq, Structural)]
pub enum Source {
    Anchor,
    Embed,
    Simhash,
}

/// What is aligned, and at which costs.
pub struct DpTask<S> {
    /// The heard words.
    pub obs: Seq<u32>,
    /// The words of the stretch.
    pub refs: Seq<u32>,
    /// By how much the expected place of a heard word exceeds its number.
    pub offset: int,
    /// How far from the expected place a word may lie.
    pub band: int,
    pub conf: Option<ConfusionModel<S>>,
    pub words: Seq<String>,
}

/// The outcome of an alignment.
pub struct Alignment<S> {
    pub cost: S,
    pub ref_start: int,
    pub ref_end: int,
    /// For each heard word the reference word that it stands for.
    pub to_ref: Seq<Option<usize>>,
    pub is_match: Seq<bool>,
    pub matches: int,
    pub substitutions: int,
    pub deletions: int,
    pub insertions: int,
    pub expected_offset: int,
    pub candidate_source: Option<Source>,
    pub quick_score: S,
}

pub struct AlignmentResultV2<S> {
    pub cost: S,
    pub ref_start: usize,
    pub ref_end: usize,
    pub transcript_to_ref: Vec<Option<usize>>,
    pub transcript_is_match: Vec<bool>,
    pub matches: usize,
    pub substitutions: usize,
    pub deletions: usize,
    pub insertions: usize,
    pub expected_offset: i32,
    pub candidate_source: Option<Source>,
    pub quick_score: S,
}

impl<S: Scalar> View for AlignmentResultV2<S> {
    type V = Alignment<S>;

    open spec fn view(&self) -> Alignment<S> {
        Alignment {
            cost: self.cost,
            ref_start: self.ref_start as int,
            ref_end: self.ref_end as int,
            to_ref: self.transcript_to_ref@,
            is_match: self.transcript_is_match@,
            matches: self.matches as int,
            substitutions: self.substitutions as int,
            deletions: self.deletions as int,
            insertions: self.insertions as int,
            expected_offset: self.expected_offset as int,
            candidate_source: self.candidate_source,
            quick_score: self.quick_score,
        }
    }
}

/// The cost of places that lie outside the band.
pub open spec fn unreachable_cost<S: Scalar>() -> S {
    S::whole_spec(1_000_000_000_000_000_000)
}

/// First place of row `i` within a band of half-width `band` over `n` places.
pub open spec fn range_lo(i: int, offset: int, band: int, n: int) -> int {
    let lo = if i + offset - band < 1 {
        1
    } else {
        i + offset - band
    };
    if lo > n {
        n
    } else {
        lo
    }
}

/// Last place of row `i` within a band of half-width `band` over `n` places.
pub open spec fn range_hi(i: int, offset: int, band: int, n: int) -> int {
    if i + offset + band < n {
        i + offset + band
    } else {
        n
    }
}

/// First place of row `i` within the band.
pub open spec fn band_lo<S>(t: DpTask<S>, i: int) -> int {
    range_lo(i, t.offset, t.band, t.refs.len() as int)
}

/// Last place of row `i` within the band.
pub open spec fn band_hi<S>(t: DpTask<S>, i: int) -> int {
    range_hi(i, t.offset, t.band, t.refs.len() as int)
}

/// How a place is best reached.
pub struct Cell<S> {
    pub cost: S,
    /// How many heard words are hits on the way.
    pub hits: int,
    /// The last step: 0 pairs a heard word with a reference word, 1 leaves out
    /// a heard word, 2 leaves out a reference word.
    pub step: int,
}

/// The cheaper way; of two equally cheap ones the one with more hits; else the
/// first.
pub open spec fn better<S: Scalar>(a: Cell<S>, b: Cell<S>) -> Cell<S> {
    if b.cost.rank() < a.cost.rank() || (b.cost.rank() == a.cost.rank() && b.hits > a.hits) {
        b
    } else {
        a
    }
}

/// How the first `i` heard words are best aligned with a stretch that ends at
/// place `j`. A stretch may begin anywhere.
pub open spec fn cell<S: Scalar>(t: DpTask<S>, i: nat, j: nat) -> Cell<S>
    decreases i, j,
{
    if i == 0 {
        Cell { cost: S::whole_spec(0), hits: 0, step: 0 }
    } else if band_lo(t, i as int) > band_hi(t, i as int) {
        Cell { cost: unreachable_cost(), hits: 0, step: 0 }
    } else if j == 0 {
        let up = cell(t, (i - 1) as nat, 0);
        Cell { cost: up.cost.plus_spec(confusion::base_costs(t.conf).1), hits: up.hits, step: 0 }
    } else if j < band_lo(t, i as int) || j > band_hi(t, i as int) {
        Cell { cost: unreachable_cost(), hits: 0, step: 0 }
    } else {
        let oid = t.obs[i - 1];
        let rid = t.refs[j - 1];
        let diagonal = cell(t, (i - 1) as nat, (j - 1) as nat);
        let up = cell(t, (i - 1) as nat, j);
        let left = cell(t, i, (j - 1) as nat);
        let pair = Cell {
            cost: diagonal.cost.plus_spec(confusion::exchange_cost(t.conf, t.words, oid, rid)),
            hits: diagonal.hits + if confusion::is_hit(oid, rid) {
                1int
            } else {
                0
            },
            step: 0,
        };
        let drop_heard = Cell { cost: up.cost.plus_spec(confusion::base_costs(t.conf).1), hits: up.hits, step: 1 };
        let drop_ref = Cell { cost: left.cost.plus_spec(confusion::base_costs(t.conf).0), hits: left.hits, step: 2 };
        better(better(pair, drop_heard), drop_ref)
    }
}

/// The least cost among the first `k` ends of the last row.
pub open spec fn least_cost<S: Scalar>(t: DpTask<S>, k: nat) -> S
    decreases k,
{
    if k == 0 {
        unreachable_cost()
    } else {
        let before = least_cost(t, (k - 1) as nat);
        let c = cell(t, t.obs.len(), (k - 1) as nat).cost;
        if c.rank() < before.rank() {
            c
        } else {
            before
        }
    }
}

/// Among the first `k` ends, the most hits of one that costs `best`.
pub open spec fn most_hits<S: Scalar>(t: DpTask<S>, best: S, k: nat) -> int
    decreases k,
{
    if k == 0 {
        0
    } else {
        let before = most_hits(t, best, (k - 1) as nat);
        let c = cell(t, t.obs.len(), (k - 1) as nat);
        if c.cost.rank() == best.rank() && c.hits > before {
            c.hits
        } else {
            before
        }
    }
}

/// The end `k` costs `best` and has `hits` hits.
pub open spec fn is_end<S: Scalar>(t: DpTask<S>, best: S, hits: int, k: nat) -> bool {
    cell(t, t.obs.len(), k).cost.rank() == best.rank() && cell(t, t.obs.len(), k).hits == hits
}

/// The first end from `k` on that costs `best` and has `hits` hits; zero where
/// there is none.
pub open spec fn first_end<S: Scalar>(t: DpTask<S>, best: S, hits: int, k: nat) -> nat
    decreases t.refs.len() + 1 - k,
{
    if k > t.refs.len() {
        0
    } else if is_end(t, best, hits, k) {
        k
    } else {
        first_end(t, best, hits, k + 1)
    }
}

/// The steps that lead to a place, collected.
pub struct Trace {
    pub to_ref: Seq<Option<usize>>,
    pub is_match: Seq<bool>,
    pub matches: int,
    pub substitutions: int,
    pub deletions: int,
    pub insertions: int,
    /// Where the stretch begins.
    pub start: nat,
}

/// The steps to place `j` of row `i`, each reference word numbered from
/// `ref_start`.
pub open spec fn trace<S: Scalar>(t: DpTask<S>, ref_start: int, i: nat, j: nat) -> Trace
    decreases i, j,
{
    if i == 0 {
        Trace {
            to_ref: Seq::empty(),
            is_match: Seq::empty(),
            matches: 0,
            substitutions: 0,
            deletions: 0,
            insertions: 0,
            start: j,
        }
    } else if j == 0 || j < band_lo(t, i as int) || j > band_hi(t, i as int) || cell(t, i, j).step == 1 {
        let p = trace(t, ref_start, (i - 1) as nat, j);
        Trace { to_ref: p.to_ref.push(None), is_match: p.is_match.push(false), deletions: p.deletions + 1, ..p }
    } else if cell(t, i, j).step == 0 {
        let p = trace(t, ref_start, (i - 1) as nat, (j - 1) as nat);
        let hit = confusion::is_hit(t.obs[i - 1], t.refs[j - 1]);
        Trace {
            to_ref: p.to_ref.push(Some((ref_start + j - 1) as usize)),
            is_match: p.is_match.push(hit),
            matches: p.matches + if hit {
                1int
            } else {
                0
            },
            substitutions: p.substitutions + 1,
            ..p
        }
    } else {
        let p = trace(t, ref_start, i, (j - 1) as nat);
        Trace { insertions: p.insertions + 1, ..p }
    }
}

/// The best alignment of a task whose stretch begins at word `ref_start` of the
/// reference.
pub open spec fn best_alignment<S: Scalar>(t: DpTask<S>, ref_start: int, expected_offset: int) -> Alignment<S> {
    let m = t.obs.len();
    let n = t.refs.len();
    if m == 0 || n == 0 {
        Alignment {
            cost: S::whole_spec(m),
            ref_start: 0,
            ref_end: 0,
            to_ref: Seq::new(m, |i: int| None),
            is_match: Seq::new(m, |i: int| false),
            matches: 0,
            substitutions: 0,
            deletions: m as int,
            insertions: 0,
            expected_offset,
            candidate_source: None,
            quick_score: S::whole_spec(0),
        }
    } else {
        let best = least_cost(t, n + 1);
        let end = first_end(t, best, most_hits(t, best, n + 1), 0);
        let tr = trace(t, ref_start, m, end);
        Alignment {
            cost: best,
            ref_start: ref_start + tr.start,
            ref_end: ref_start + end,
            to_ref: tr.to_ref,
            is_match: tr.is_match,
            matches: tr.matches,
            substitutions: tr.substitutions,
            deletions: tr.deletions,
            insertions: tr.insertions,
            expected_offset,
            candidate_source: None,
            quick_score: S::whole_spec(0),
        }
    }
}

/// The task that the arguments of an alignment describe.
pub open spec fn task_of<S>(
    obs_ids: Seq<u32>,
    ref_ids: Seq<u32>,
    ref_start: int,
    expected_offset: int,
    band: int,
    conf: Option<ConfusionModel<S>>,
    words: Seq<String>,
) -> DpTask<S> {
    DpTask { obs: obs_ids, refs: ref_ids, offset: expected_offset - ref_start, band, conf, words }
}

/// Hits are counted one heard word at a time.
proof fn lemma_hits<S: Scalar>(t: DpTask<S>, i: nat, j: nat)
    ensures
        0 <= cell(t, i, j).hits <= i,
        0 <= cell(t, i, j).step <= 2,
    decreases i, j,
{
    if i > 0 {
        lemma_hits(t, (i - 1) as nat, 0);
        lemma_hits(t, (i - 1) as nat, j);
        if j > 0 {
            lemma_hits(t, (i - 1) as nat, (j - 1) as nat);
            lemma_hits(t, i, (j - 1) as nat);
        }
    }
}

/// What a trace counts fits together.
pub proof fn lemma_trace<S: Scalar>(t: DpTask<S>, ref_start: int, i: nat, j: nat)
    requires
        0 <= ref_start,
        ref_start + j <= usize::MAX,
    ensures
        ({
            let r = trace(t, ref_start, i, j);
            &&& r.to_ref.len() == i
            &&& r.is_match.len() == i
            &&& r.substitutions + r.deletions == i
            &&& r.substitutions >= 0 && r.deletions >= 0 && r.insertions >= 0
            &&& r.start + r.substitutions + r.insertions == j
            &&& 0 <= r.matches <= r.substitutions
            &&& forall|k: int|
                0 <= k < i ==> match #[trigger] r.to_ref[k] {
                    None => !r.is_match[k],
                    Some(x) => ref_start + r.start <= x < ref_start + j,
                }
            &&& forall|k: int, l: int|
                0 <= k < l < i && (#[trigger] r.to_ref[k]) is Some && (#[trigger] r.to_ref[l]) is Some ==>
                r.to_ref[k]->0 < r.to_ref[l]->0
        }),
    decreases i, j,
{
    if i == 0 {
    } else if j == 0 || j < band_lo(t, i as int) || j > band_hi(t, i as int) || cell(t, i, j).step == 1 {
        lemma_trace(t, ref_start, (i - 1) as nat, j);
    } else if cell(t, i, j).step == 0 {
        lemma_trace(t, ref_start, (i - 1) as nat, (j - 1) as nat);
    } else {
        lemma_trace(t, ref_start, i, (j - 1) as nat);
    }
}

/// One row of the table: its place range and the last steps there.
struct Row {
    lo: usize,
    hi: usize,
    steps: Vec<u8>,
}

spec fn row_is<S: Scalar>(t: DpTask<S>, i: nat, row: Row) -> bool {
    if band_lo(t, i as int) > band_hi(t, i as int) {
        row.lo > row.hi
    } else {
        &&& row.lo == band_lo(t, i as int)
        &&& row.hi == band_hi(t, i as int)
        &&& row.steps@.len() == row.hi - row.lo + 1
        &&& forall|k: int|
            row.lo <= k <= row.hi ==> (#[trigger] row.steps@[k - row.lo]) == cell(t, i, k as nat).step
    }
}

/// `costs` and `hits` are those of row `i`.
spec fn cells_are<S: Scalar>(t: DpTask<S>, i: nat, costs: Seq<S>, hits: Seq<usize>) -> bool {
    &&& costs.len() == hits.len()
    &&& forall|j: int| 0 <= j < costs.len() ==> #[trigger] costs[j] == cell(t, i, j as nat).cost
    &&& forall|j: int| 0 <= j < hits.len() ==> #[trigger] hits[j] == cell(t, i, j as nat).hits
}

/// A step on the way to a place: its cost, its hits and its kind.
struct Way<S> {
    cost: S,
    hits: usize,
    step: u8,
}

impl<S: Scalar> Way<S> {
    spec fn as_cell(self) -> Cell<S> {
        Cell { cost: self.cost, hits: self.hits as int, step: self.step as int }
    }
}

fn better_way<S: Scalar>(a: Way<S>, b: Way<S>) -> (r: Way<S>)
    ensures
        r.as_cell() == better(a.as_cell(), b.as_cell()),
{
    if b.cost.below(a.cost) {
        b
    } else if !a.cost.below(b.cost) && b.hits > a.hits {
        b
    } else {
        a
    }
}

/// The places of row `i` within the band; an empty range where there are none.
fn row_range(i: usize, n: usize, offset: i64, band: usize) -> (r: (usize, usize))
    requires
        i <= i32::MAX,
        1 <= n <= i32::MAX,
        band <= i32::MAX,
        -0x1_0000_0000 <= offset <= 0x1_0000_0000,
    ensures
        ({
            let lo = range_lo(i as int, offset as int, band as int, n as int);
            let hi = range_hi(i as int, offset as int, band as int, n as int);
            if lo > hi {
                r.0 > r.1
            } else {
                r.0 == lo && r.1 == hi && 1 <= lo && hi <= n
            }
        }),
{
    let expected: i64 = i as i64 + offset;
    let width: i64 = band as i64;
    let count: i64 = n as i64;
    let mut lo: i64 = if expected - width < 1 {
        1
    } else {
        expected - width
    };
    let hi: i64 = if expected + width < count {
        expected + width
    } else {
        count
    };
    if lo > count {
        lo = count;
    }
    if lo > hi {
        (1, 0)
    } else {
        (lo as usize, hi as usize)
    }
}

/// The arguments of an alignment.
struct Frame<'a, S> {
    obs: &'a [u32],
    refs: &'a [u32],
    offset: i64,
    band: usize,
    conf: Option<&'a ConfusionModel<S>>,
    words: &'a [String],
}

impl<'a, S: Scalar> Frame<'a, S> {
    spec fn task(self) -> DpTask<S> {
        DpTask {
            obs: self.obs@,
            refs: self.refs@,
            offset: self.offset as int,
            band: self.band as int,
            conf: match self.conf {
                None => None,
                Some(c) => Some(*c),
            },
            words: self.words@,
        }
    }

    spec fn fits(self) -> bool {
        &&& 1 <= self.obs@.len() < i32::MAX
        &&& 1 <= self.refs@.len() < i32::MAX
        &&& self.band <= i32::MAX
        &&& -0x1_0000_0000 <= self.offset <= 0x1_0000_0000
        &&& confusion::words_fit(self.words@)
        &&& self.conf matches Some(c) ==> c.wf()
    }

    fn costs(&self) -> (r: (S, S))
        ensures
            r.0 == confusion::base_costs(self.task().conf).0,
            r.1 == confusion::base_costs(self.task().conf).1,
    {
        match self.conf {
            None => (S::whole(1), S::whole(1)),
            Some(c) => (c.global_ref_del_cost, c.global_obs_ins_cost),
        }
    }

    /// Works out row `i` from the row before.
    fn next_row(
        &self,
        i: usize,
        up_costs: &Vec<S>,
        up_hits: &Vec<usize>,
        exchange: &mut ExchangeCosts,
    ) -> (r: (Vec<S>, Vec<usize>, Row))
        requires
            self.fits(),
            1 <= i <= self.obs@.len(),
            up_costs@.len() == self.refs@.len() + 1,
            cells_are(self.task(), (i - 1) as nat, up_costs@, up_hits@),
            old(exchange).serves(self.words@),
        ensures
            final(exchange).serves(self.words@),
            r.0@.len() == self.refs@.len() + 1,
            cells_are(self.task(), i as nat, r.0@, r.1@),
            row_is(self.task(), i as nat, r.2),
    {
        let ghost t = self.task();
        let n: usize = self.refs.len();
        let far: S = S::whole(1_000_000_000_000_000_000);
        let (ref_del, obs_ins) = self.costs();
        let (lo, hi) = row_range(i, n, self.offset, self.band);
        let mut costs: Vec<S> = Vec::new();
        let mut hits: Vec<usize> = Vec::new();
        let mut steps: Vec<u8> = Vec::new();
        if lo > hi {
            let mut j: usize = 0;
            while j <= n
                invariant
                    t == self.task(),
                    n == t.refs.len(),
                    n < i32::MAX,
                    1 <= i,
                    band_lo(t, i as int) > band_hi(t, i as int),
                    far == unreachable_cost::<S>(),
                    j <= n + 1,
                    costs@.len() == j,
                    cells_are(t, i as nat, costs@, hits@),
                decreases n + 1 - j,
            {
                costs.push(far);
                hits.push(0);
                j = j + 1;
            }
            return (costs, hits, Row { lo, hi, steps });
        }
        proof {
            lemma_hits(t, (i - 1) as nat, 0);
            assert(up_costs@[0] == cell(t, (i - 1) as nat, 0).cost);
            assert(up_hits@[0] == cell(t, (i - 1) as nat, 0).hits);
        }
        costs.push(up_costs[0].plus(obs_ins));
        hits.push(up_hits[0]);
        let oid: u32 = self.obs[i - 1];
        let mut j: usize = 1;
        while j <= n
            invariant
                self.fits(),
                t == self.task(),
                n == t.refs.len(),
                1 <= i <= t.obs.len(),
                oid == t.obs[i - 1],
                ref_del == confusion::base_costs(t.conf).0,
                obs_ins == confusion::base_costs(t.conf).1,
                far == unreachable_cost::<S>(),
                lo == band_lo(t, i as int),
                hi == band_hi(t, i as int),
                1 <= lo <= hi <= n,
                1 <= j <= n + 1,
                up_costs@.len() == n + 1,
                cells_are(t, (i - 1) as nat, up_costs@, up_hits@),
                costs@.len() == j,
                cells_are(t, i as nat, costs@, hits@),
                exchange.serves(self.words@),
                steps@.len() == (if j <= lo {
                    0
                } else if j <= hi {
                    j - lo
                } else {
                    hi - lo + 1
                }),
                forall|k: int|
                    lo <= k < j && k <= hi ==> (#[trigger] steps@[k - lo]) == cell(t, i as nat, k as nat).step,
            decreases n + 1 - j,
        {
            if j < lo || j > hi {
                costs.push(far);
                hits.push(0);
            } else {
                let rid: u32 = self.refs[j - 1];
                proof {
                    lemma_hits(t, (i - 1) as nat, (j - 1) as nat);
                    lemma_hits(t, i as nat, j as nat);
                    assert(up_costs@[j - 1] == cell(t, (i - 1) as nat, (j - 1) as nat).cost);
                    assert(up_hits@[j - 1] == cell(t, (i - 1) as nat, (j - 1) as nat).hits);
                    assert(up_costs@[j as int] == cell(t, (i - 1) as nat, j as nat).cost);
                    assert(up_hits@[j as int] == cell(t, (i - 1) as nat, j as nat).hits);
                    assert(costs@[j - 1] == cell(t, i as nat, (j - 1) as nat).cost);
                    assert(hits@[j - 1] == cell(t, i as nat, (j - 1) as nat).hits);
                }
                let price: S = exchange.cost(self.conf, self.words, oid, rid);
                let gain: usize = if oid == rid && oid != 0 {
                    1
                } else {
                    0
                };
                let pair = Way { cost: up_costs[j - 1].plus(price), hits: up_hits[j - 1] + gain, step: 0 };
                let drop_heard = Way { cost: up_costs[j].plus(obs_ins), hits: up_hits[j], step: 1 };
                let drop_ref = Way { cost: costs[j - 1].plus(ref_del), hits: hits[j - 1], step: 2 };
                let way = better_way(better_way(pair, drop_heard), drop_ref);
                assert(way.as_cell() == cell(t, i as nat, j as nat));
                costs.push(way.cost);
                hits.push(way.hits);
                steps.push(way.step);
            }
            j = j + 1;
        }
        (costs, hits, Row { lo, hi, steps })
    }
}

/// The end of the best alignment: its cost and its place.
fn best_end<S: Scalar>(Ghost(t): Ghost<DpTask<S>>, costs: &Vec<S>, hits: &Vec<usize>) -> (r: (S, usize))
    requires
        costs@.len() == t.refs.len() + 1,
        cells_are(t, t.obs.len(), costs@, hits@),
    ensures
        r.0 == least_cost(t, t.refs.len() + 1),
        r.1 == first_end(t, r.0, most_hits(t, r.0, t.refs.len() + 1), 0),
        r.1 <= t.refs.len(),
{
    let mut best: S = S::whole(1_000_000_000_000_000_000);
    let mut k: usize = 0;
    while k < costs.len()
        invariant
            k <= costs@.len(),
            cells_are(t, t.obs.len(), costs@, hits@),
            best == least_cost(t, k as nat),
        decreases costs@.len() - k,
    {
        assert(costs@[k as int] == cell(t, t.obs.len(), k as nat).cost);
        if costs[k].below(best) {
            best = costs[k];
        }
        k = k + 1;
    }
    let mut most: usize = 0;
    k = 0;
    while k < costs.len()
        invariant
            k <= costs@.len(),
            cells_are(t, t.obs.len(), costs@, hits@),
            most == most_hits(t, best, k as nat),
        decreases costs@.len() - k,
    {
        assert(costs@[k as int] == cell(t, t.obs.len(), k as nat).cost);
        assert(hits@[k as int] == cell(t, t.obs.len(), k as nat).hits);
        if !costs[k].below(best) && !best.below(costs[k]) && hits[k] > most {
            most = hits[k];
        }
        k = k + 1;
    }
    let mut end: usize = 0;
    k = 0;
    while k < costs.len()
        invariant
            k <= costs@.len(),
            costs@.len() == t.refs.len() + 1,
            cells_are(t, t.obs.len(), costs@, hits@),
            first_end(t, best, most as int, 0) == first_end(t, best, most as int, k as nat),
        ensures
            k <= costs@.len(),
            if k < costs@.len() {
                first_end(t, best, most as int, 0) == k
            } else {
                first_end(t, best, most as int, 0) == 0
            },
        decreases costs@.len() - k,
    {
        assert(costs@[k as int] == cell(t, t.obs.len(), k as nat).cost);
        assert(hits@[k as int] == cell(t, t.obs.len(), k as nat).hits);
        if !costs[k].below(best) && !best.below(costs[k]) && hits[k] == most {
            break;
        }
        k = k + 1;
    }
    if k < costs.len() {
        end = k;
    }
    (best, end)
}

/// The filled table: the last row's costs and hits, and the steps of all rows.
fn fill_table<S: Scalar>(f: &Frame<S>) -> (r: (Vec<S>, Vec<usize>, Vec<Row>))
    requires
        f.fits(),
    ensures
        r.0@.len() == f.refs@.len() + 1,
        cells_are(f.task(), f.obs@.len(), r.0@, r.1@),
        r.2@.len() == f.obs@.len(),
        forall|i: int| 0 <= i < r.2@.len() ==> row_is(f.task(), (i + 1) as nat, #[trigger] r.2@[i]),
{
    let ghost t = f.task();
    let n: usize = f.refs.len();
    let m: usize = f.obs.len();
    let mut costs: Vec<S> = Vec::new();
    let mut hits: Vec<usize> = Vec::new();
    let mut j: usize = 0;
    while j <= n
        invariant
            n < i32::MAX,
            j <= n + 1,
            costs@.len() == j,
            cells_are(t, 0, costs@, hits@),
        decreases n + 1 - j,
    {
        costs.push(S::whole(0));
        hits.push(0);
        j = j + 1;
    }
    let mut rows: Vec<Row> = Vec::new();
    let mut exchange = ExchangeCosts::new(f.words);
    let mut i: usize = 0;
    while i < m
        invariant
            f.fits(),
            t == f.task(),
            m == f.obs@.len(),
            n == f.refs@.len(),
            i <= m,
            costs@.len() == n + 1,
            cells_are(t, i as nat, costs@, hits@),
            exchange.serves(f.words@),
            rows@.len() == i,
            forall|k: int| 0 <= k < i ==> row_is(t, (k + 1) as nat, #[trigger] rows@[k]),
        decreases m - i,
    {
        let (next_costs, next_hits, row) = f.next_row(i + 1, &costs, &hits, &mut exchange);
        costs = next_costs;
        hits = next_hits;
        rows.push(row);
        i = i + 1;
    }
    (costs, hits, rows)
}

/// What is known behind place `(i, j)` of the way to `(m, end)`.
spec fn behind<S: Scalar>(
    t: DpTask<S>,
    ref_start: int,
    end: nat,
    i: nat,
    j: nat,
    to_ref: Seq<Option<usize>>,
    is_match: Seq<bool>,
    tail: Trace,
) -> bool {
    let m = t.obs.len();
    let all = trace(t, ref_start, m, end);
    let here = trace(t, ref_start, i, j);
    &&& to_ref.len() == m
    &&& is_match.len() == m
    &&& all.to_ref == here.to_ref + to_ref.skip(i as int)
    &&& all.is_match == here.is_match + is_match.skip(i as int)
    &&& all.matches == here.matches + tail.matches
    &&& all.substitutions == here.substitutions + tail.substitutions
    &&& all.deletions == here.deletions + tail.deletions
    &&& all.insertions == here.insertions + tail.insertions
    &&& all.start == here.start
}

/// Follows the steps from `end` of the last row back to the start.
fn follow_back<S: Scalar>(f: &Frame<S>, rows: &Vec<Row>, ref_start: usize, end: usize) -> (r: AlignmentResultV2<S>)
    requires
        f.fits(),
        end <= f.refs@.len(),
        ref_start + f.refs@.len() <= i32::MAX,
        rows@.len() == f.obs@.len(),
        forall|i: int| 0 <= i < rows@.len() ==> row_is(f.task(), (i + 1) as nat, #[trigger] rows@[i]),
    ensures
        ({
            let all = trace(f.task(), ref_start as int, f.obs@.len(), end as nat);
            &&& r.transcript_to_ref@ == all.to_ref
            &&& r.transcript_is_match@ == all.is_match
            &&& r.matches == all.matches
            &&& r.substitutions == all.substitutions
            &&& r.deletions == all.deletions
            &&& r.insertions == all.insertions
            &&& r.ref_start == ref_start + all.start
            &&& r.ref_end == ref_start + end
            &&& r.cost == S::whole_spec(0)
            &&& r.expected_offset == 0
            &&& r.candidate_source is None
            &&& r.quick_score == S::whole_spec(0)
        }),
{
    let ghost t = f.task();
    let m: usize = f.obs.len();
    let ghost all = trace(t, ref_start as int, m as nat, end as nat);
    proof {
        lemma_trace(t, ref_start as int, m as nat, end as nat);
    }
    let mut to_ref: Vec<Option<usize>> = vec![None; m];
    let mut is_match: Vec<bool> = vec![false; m];
    let mut matches: usize = 0;
    let mut substitutions: usize = 0;
    let mut deletions: usize = 0;
    let mut insertions: usize = 0;
    let mut i: usize = m;
    let mut j: usize = end;
    proof {
        assert(all.to_ref + to_ref@.skip(m as int) =~= all.to_ref);
        assert(all.is_match + is_match@.skip(m as int) =~= all.is_match);
    }
    while i > 0
        invariant
            f.fits(),
            t == f.task(),
            m == f.obs@.len(),
            i <= m,
            j <= end <= f.refs@.len(),
            ref_start + f.refs@.len() <= i32::MAX,
            rows@.len() == m,
            forall|k: int| 0 <= k < rows@.len() ==> row_is(t, (k + 1) as nat, #[trigger] rows@[k]),
            matches <= substitutions,
            substitutions + deletions == m - i,
            substitutions + insertions == end - j,
            forall|k: int| 0 <= k < i ==> #[trigger] to_ref@[k] == None::<usize>,
            forall|k: int| 0 <= k < i ==> #[trigger] is_match@[k] == false,
            behind(
                t,
                ref_start as int,
                end as nat,
                i as nat,
                j as nat,
                to_ref@,
                is_match@,
                Trace {
                    to_ref: Seq::empty(),
                    is_match: Seq::empty(),
                    matches: matches as int,
                    substitutions: substitutions as int,
                    deletions: deletions as int,
                    insertions: insertions as int,
                    start: 0,
                },
            ),
        decreases i + j,
    {
        let row = &rows[i - 1];
        assert(row_is(t, i as nat, rows@[i - 1]));
        let ghost here = trace(t, ref_start as int, i as nat, j as nat);
        proof {
            lemma_hits(t, i as nat, j as nat);
        }
        let mut step: u8 = 1;
        if j > 0 && row.lo <= row.hi && row.lo <= j && j <= row.hi {
            assert(row.steps@[j - row.lo] == cell(t, i as nat, j as nat).step);
            step = row.steps[j - row.lo];
        }
        if step == 1 {
            proof {
                let p = trace(t, ref_start as int, (i - 1) as nat, j as nat);
                assert(here.to_ref == p.to_ref.push(None));
                assert(to_ref@.skip(i - 1) =~= seq![None::<usize>] + to_ref@.skip(i as int));
                assert(is_match@.skip(i - 1) =~= seq![false] + is_match@.skip(i as int));
                assert(p.to_ref + to_ref@.skip(i - 1) =~= here.to_ref + to_ref@.skip(i as int));
                assert(p.is_match + is_match@.skip(i - 1) =~= here.is_match + is_match@.skip(i as int));
            }
            deletions = deletions + 1;
            i = i - 1;
        } else if step == 0 {
            let rid: u32 = f.refs[j - 1];
            let oid: u32 = f.obs[i - 1];
            let hit: bool = rid == oid && oid != 0;
            let ghost old_ref = to_ref@;
            let ghost old_match = is_match@;
            to_ref.set(i - 1, Some(ref_start + (j - 1)));
            is_match.set(i - 1, hit);
            proof {
                let p = trace(t, ref_start as int, (i - 1) as nat, (j - 1) as nat);
                assert(to_ref@.skip(i - 1) =~= seq![Some((ref_start + j - 1) as usize)] + old_ref.skip(i as int));
                assert(is_match@.skip(i - 1) =~= seq![hit] + old_match.skip(i as int));
                assert(p.to_ref + to_ref@.skip(i - 1) =~= here.to_ref + old_ref.skip(i as int));
                assert(p.is_match + is_match@.skip(i - 1) =~= here.is_match + old_match.skip(i as int));
            }
            substitutions = substitutions + 1;
            if hit {
                matches = matches + 1;
            }
            i = i - 1;
            j = j - 1;
        } else {
            insertions = insertions + 1;
            j = j - 1;
        }
    }
    proof {
        assert(to_ref@.skip(0) =~= to_ref@);
        assert(is_match@.skip(0) =~= is_match@);
        assert(Seq::<Option<usize>>::empty() + to_ref@ =~= to_ref@);
        assert(Seq::<bool>::empty() + is_match@ =~= is_match@);
    }
    AlignmentResultV2 {
        cost: S::whole(0),
        ref_start: ref_start + j,
        ref_end: ref_start + end,
        transcript_to_ref: to_ref,
        transcript_is_match: is_match,
        matches,
        substitutions,
        deletions,
        insertions,
        expected_offset: 0,
        candidate_source: None,
        quick_score: S::whole(0),
    }
}

/// Aligns heard words with a stretch of the reference.
pub fn weighted_banded_dp<S: Scalar>(
    obs_ids: &[u32],
    ref_ids: &[u32],
    ref_start_global: usize,
    expected_offset_global: i32,
    band: usize,
    conf: Option<&ConfusionModel<S>>,
    id_to_token: &[String],
) -> (r: AlignmentResultV2<S>)
    requires
        obs_ids@.len() < i32::MAX,
        ref_start_global + ref_ids@.len() < i32::MAX,
        band <= i32::MAX,
        confusion::words_fit(id_to_token@),
        conf matches Some(c) ==> c.wf(),
    ensures
        r@ == best_alignment(
            task_of(
                obs_ids@,
                ref_ids@,
                ref_start_global as int,
                expected_offset_global as int,
                band as int,
                match conf {
                    None => None,
                    Some(c) => Some(*c),
                },
                id_to_token@,
            ),
            ref_start_global as int,
            expected_offset_global as int,
        ),
{
    let m: usize = obs_ids.len();
    let n: usize = ref_ids.len();
    if m == 0 || n == 0 {
        let to_ref: Vec<Option<usize>> = vec![None; m];
        let is_match: Vec<bool> = vec![false; m];
        proof {
            assert(to_ref@ =~= Seq::new(m as nat, |i: int| None));
            assert(is_match@ =~= Seq::new(m as nat, |i: int| false));
        }
        return AlignmentResultV2 {
            cost: S::whole(m as u64),
            ref_start: 0,
            ref_end: 0,
            transcript_to_ref: to_ref,
            transcript_is_match: is_match,
            matches: 0,
            substitutions: 0,
            deletions: m,
            insertions: 0,
            expected_offset: expected_offset_global,
            candidate_source: None,
            quick_score: S::whole(0),
        };
    }
    let f = Frame {
        obs: obs_ids,
        refs: ref_ids,
        offset: expected_offset_global as i64 - ref_start_global as i64,
        band,
        conf,
        words: id_to_token,
    };
    let (costs, hits, rows) = fill_table(&f);
    let (best, end) = best_end(Ghost(f.task()), &costs, &hits);
    let mut r = follow_back(&f, &rows, ref_start_global, end);
    r.cost = best;
    r.expected_offset = expected_offset_global;
    r
}

// ---------------------------------------------------------------------------
// Laws

/// How many heard words the steps of `w` use up.
pub open spec fn heard_used(w: Seq<int>) -> nat
    decreases w.len(),
{
    if w.len() == 0 {
        0
    } else {
        heard_used(w.drop_last()) + if w.last() == 2 {
            0nat
        } else {
            1nat
        }
    }
}

/// How many reference words the steps of `w` use up.
pub open spec fn refs_used(w: Seq<int>) -> nat
    decreases w.len(),
{
    if w.len() == 0 {
        0
    } else {
        refs_used(w.drop_last()) + if w.last() == 1 {
            0nat
        } else {
            1nat
        }
    }
}

/// The steps of `w`, taken from place `start` in front of the first heard word,
/// stay within the words and within the band.
pub open spec fn is_way<S>(t: DpTask<S>, start: nat, w: Seq<int>) -> bool
    decreases w.len(),
{
    if w.len() == 0 {
        start <= t.refs.len()
    } else {
        let i = heard_used(w);
        let j = start + refs_used(w);
        &&& is_way(t, start, w.drop_last())
        &&& 0 <= w.last() <= 2
        &&& 1 <= i <= t.obs.len()
        &&& j <= t.refs.len()
        &&& band_lo(t, i as int) <= band_hi(t, i as int)
        &&& if j == 0 {
            w.last() == 1
        } else {
            band_lo(t, i as int) <= j <= band_hi(t, i as int)
        }
    }
}

/// What the steps of `w` cost, summed in order.
pub open spec fn way_cost<S: Scalar>(t: DpTask<S>, start: nat, w: Seq<int>) -> S
    decreases w.len(),
{
    if w.len() == 0 {
        S::whole_spec(0)
    } else {
        let before = way_cost(t, start, w.drop_last());
        if w.last() == 0 {
            before.plus_spec(
                confusion::exchange_cost(
                    t.conf,
                    t.words,
                    t.obs[heard_used(w) - 1],
                    t.refs[start + refs_used(w) - 1],
                ),
            )
        } else if w.last() == 1 {
            before.plus_spec(confusion::base_costs(t.conf).1)
        } else {
            before.plus_spec(confusion::base_costs(t.conf).0)
        }
    }
}

proof fn lemma_no_way_is_cheaper<S: Scalar>(t: DpTask<S>, start: nat, w: Seq<int>)
    requires
        scalar::sums_keep_order::<S>(),
        is_way(t, start, w),
    ensures
        cell(t, heard_used(w), start + refs_used(w)).cost.rank() <= way_cost(t, start, w).rank(),
    decreases w.len(),
{
    if w.len() > 0 {
        let i = heard_used(w);
        let j = start + refs_used(w);
        let p = w.drop_last();
        lemma_no_way_is_cheaper(t, start, p);
        let before = cell(t, heard_used(p), start + refs_used(p)).cost;
        let step = if w.last() == 0 {
            confusion::exchange_cost(t.conf, t.words, t.obs[i - 1], t.refs[j - 1])
        } else if w.last() == 1 {
            confusion::base_costs(t.conf).1
        } else {
            confusion::base_costs(t.conf).0
        };
        assert(before.plus_spec(step).rank() <= way_cost(t, start, p).plus_spec(step).rank());
    }
}

proof fn lemma_least_cost<S: Scalar>(t: DpTask<S>, k: nat, j: nat)
    requires
        j < k,
    ensures
        least_cost(t, k).rank() <= cell(t, t.obs.len(), j).cost.rank(),
    decreases k,
{
    if j < k - 1 {
        lemma_least_cost(t, (k - 1) as nat, j);
    }
}

/// Where sums keep the order, no way to use up all heard words within the band is
/// cheaper than the best alignment.
pub proof fn law_no_alignment_is_cheaper<S: Scalar>(
    t: DpTask<S>,
    ref_start: int,
    expected_offset: int,
    start: nat,
    w: Seq<int>,
)
    requires
        scalar::sums_keep_order::<S>(),
        t.obs.len() > 0,
        t.refs.len() > 0,
        is_way(t, start, w),
        heard_used(w) == t.obs.len(),
    ensures
        best_alignment(t, ref_start, expected_offset).cost.rank() <= way_cost(t, start, w).rank(),
{
    lemma_no_way_is_cheaper(t, start, w);
    lemma_least_cost(t, t.refs.len() + 1, start + refs_used(w));
}

/// A best alignment accounts for every heard word and for every reference word
/// of its stretch. Heard words stand for reference words of the stretch, in
/// their order.
pub proof fn law_alignment_is_consistent<S: Scalar>(t: DpTask<S>, ref_start: int, expected_offset: int)
    requires
        0 <= ref_start,
        ref_start + t.refs.len() <= usize::MAX,
    ensures
        ({
            let a = best_alignment(t, ref_start, expected_offset);
            &&& a.to_ref.len() == t.obs.len()
            &&& a.is_match.len() == t.obs.len()
            &&& a.substitutions + a.deletions == t.obs.len()
            &&& a.ref_end - a.ref_start == a.substitutions + a.insertions
            &&& 0 <= a.matches <= a.substitutions
            &&& forall|k: int|
                0 <= k < a.to_ref.len() ==> match #[trigger] a.to_ref[k] {
                    None => !a.is_match[k],
                    Some(x) => a.ref_start <= x < a.ref_end && a.ref_end <= ref_start + t.refs.len(),
                }
            &&& forall|k: int, l: int|
                0 <= k < l < a.to_ref.len() && (#[trigger] a.to_ref[k]) is Some && (#[trigger] a.to_ref[l]) is Some
                    ==> a.to_ref[k]->0 < a.to_ref[l]->0
        }),
{
    if t.obs.len() > 0 && t.refs.len() > 0 {
        let best = least_cost(t, t.refs.len() + 1);
        let hits = most_hits(t, best, t.refs.len() + 1);
        lemma_first_end(t, best, hits, 0);
        lemma_trace(t, ref_start, t.obs.len(), first_end(t, best, hits, 0));
    }
}

proof fn lemma_first_end<S: Scalar>(t: DpTask<S>, best: S, hits: int, k: nat)
    ensures
        first_end(t, best, hits, k) <= t.refs.len(),
    decreases t.refs.len() + 1 - k,
{
    if k <= t.refs.len() && !is_end(t, best, hits, k) {
        lemma_first_end(t, best, hits, k + 1);
    }
}

/// The band is so wide that it cuts nothing off.
pub open spec fn is_wide<S>(t: DpTask<S>) -> bool {
    t.refs.len() > 0 && t.obs.len() + t.offset <= t.band && t.refs.len() - t.offset <= t.band
}

/// The steps by which a cell was reached.
spec fn way_to<S: Scalar>(t: DpTask<S>, i: nat, j: nat) -> (nat, Seq<int>)
    decreases i, j,
{
    if i == 0 {
        (j, Seq::empty())
    } else if j == 0 || cell(t, i, j).step == 1 {
        let p = way_to(t, (i - 1) as nat, j);
        (p.0, p.1.push(1))
    } else if cell(t, i, j).step == 0 {
        let p = way_to(t, (i - 1) as nat, (j - 1) as nat);
        (p.0, p.1.push(0))
    } else {
        let p = way_to(t, i, (j - 1) as nat);
        (p.0, p.1.push(2))
    }
}

proof fn lemma_pushed(w: Seq<int>, x: int)
    ensures
        w.push(x).drop_last() == w,
        heard_used(w.push(x)) == heard_used(w) + (if x == 2 {
            0int
        } else {
            1
        }),
        refs_used(w.push(x)) == refs_used(w) + (if x == 1 {
            0int
        } else {
            1
        }),
{
    assert(w.push(x).drop_last() =~= w);
}

proof fn lemma_way_to<S: Scalar>(t: DpTask<S>, i: nat, j: nat)
    requires
        is_wide(t),
        i <= t.obs.len(),
        j <= t.refs.len(),
    ensures
        ({
            let (start, w) = way_to(t, i, j);
            &&& is_way(t, start, w)
            &&& heard_used(w) == i
            &&& start + refs_used(w) == j
            &&& way_cost(t, start, w) == cell(t, i, j).cost
        }),
    decreases i, j,
{
    let (start, w) = way_to(t, i, j);
    if i == 0 {
    } else {
        assert(band_lo(t, i as int) == 1);
        assert(band_hi(t, i as int) == t.refs.len());
        if j == 0 || cell(t, i, j).step == 1 {
            lemma_way_to(t, (i - 1) as nat, j);
            lemma_pushed(way_to(t, (i - 1) as nat, j).1, 1);
        } else if cell(t, i, j).step == 0 {
            lemma_way_to(t, (i - 1) as nat, (j - 1) as nat);
            lemma_pushed(way_to(t, (i - 1) as nat, (j - 1) as nat).1, 0);
        } else {
            lemma_way_to(t, i, (j - 1) as nat);
            lemma_pushed(way_to(t, i, (j - 1) as nat).1, 2);
        }
    }
}

proof fn lemma_least_is_a_cell<S: Scalar>(t: DpTask<S>, k: nat)
    ensures
        least_cost(t, k) == unreachable_cost::<S>() || exists|j: nat|
            j < k && least_cost(t, k) == (#[trigger] cell(t, t.obs.len(), j)).cost,
    decreases k,
{
    if k > 0 {
        lemma_least_is_a_cell(t, (k - 1) as nat);
        let c = cell(t, t.obs.len(), (k - 1) as nat);
        if least_cost(t, k) == c.cost {
        } else if least_cost(t, k) != unreachable_cost::<S>() {
            let j = choose|j: nat|
                j < k - 1 && least_cost(t, (k - 1) as nat) == (#[trigger] cell(t, t.obs.len(), j)).cost;
            assert(least_cost(t, k) == cell(t, t.obs.len(), j).cost);
        }
    }
}

/// The cost of an alignment is what some way through the heard words and the reference
/// costs, where the band cuts nothing off: it is not told cheaper than it is.
pub proof fn law_alignment_cost_is_that_of_a_way<S: Scalar>(t: DpTask<S>, ref_start: int, expected_offset: int)
    requires
        is_wide(t),
        t.obs.len() > 0,
    ensures
        ({
            let cost = best_alignment(t, ref_start, expected_offset).cost;
            cost == unreachable_cost::<S>() || exists|start: nat, w: Seq<int>| #[trigger]
                is_way(t, start, w) && heard_used(w) == t.obs.len() && way_cost(t, start, w) == cost
        }),
{
    let n = t.refs.len();
    let cost = least_cost(t, n + 1);
    lemma_least_is_a_cell(t, n + 1);
    if cost != unreachable_cost::<S>() {
        let j = choose|j: nat| j < n + 1 && cost == (#[trigger] cell(t, t.obs.len(), j)).cost;
        lemma_way_to(t, t.obs.len(), j);
        let (start, w) = way_to(t, t.obs.len(), j);
        assert(is_way(t, start, w) && heard_used(w) == t.obs.len() && way_cost(t, start, w) == cost);
    }
}

/// How many of the flags are set.
pub open spec fn set_flags(flags: Seq<bool>) -> int
    decreases flags.len(),
{
    if flags.len() == 0 {
        0
    } else {
        set_flags(flags.drop_last()) + (if flags.last() {
            1int
        } else {
            0
        })
    }
}

proof fn lemma_trace_hits<S: Scalar>(t: DpTask<S>, ref_start: int, i: nat, j: nat)
    requires
        0 <= ref_start,
        ref_start + t.refs.len() <= usize::MAX,
        i <= t.obs.len(),
        j <= t.refs.len(),
    ensures
        ({
            let tr = trace(t, ref_start, i, j);
            &&& tr.to_ref.len() == i && tr.is_match.len() == i
            &&& tr.matches == set_flags(tr.is_match)
            &&& forall|k: int|
                0 <= k < i ==> match #[trigger] tr.to_ref[k] {
                    None => !tr.is_match[k],
                    Some(x) => ref_start <= x < ref_start + t.refs.len() && tr.is_match[k] == (t.obs[k]
                        == t.refs[x - ref_start] && t.obs[k] != 0),
                }
        }),
    decreases i, j,
{
    if i > 0 {
        if j == 0 || j < band_lo(t, i as int) || j > band_hi(t, i as int) || cell(t, i, j).step == 1 {
            lemma_trace_hits(t, ref_start, (i - 1) as nat, j);
            let p = trace(t, ref_start, (i - 1) as nat, j);
            assert(p.is_match.push(false).drop_last() =~= p.is_match);
        } else if cell(t, i, j).step == 0 {
            lemma_trace_hits(t, ref_start, (i - 1) as nat, (j - 1) as nat);
            let p = trace(t, ref_start, (i - 1) as nat, (j - 1) as nat);
            let hit = confusion::is_hit(t.obs[i - 1], t.refs[j - 1]);
            assert(p.is_match.push(hit).drop_last() =~= p.is_match);
        } else {
            lemma_trace_hits(t, ref_start, i, (j - 1) as nat);
        }
    }
}

/// A heard word is told as a hit exactly if it is paired with the very same word of the
/// vocabulary, and as many hits are counted as there are.
pub proof fn law_hits_are_the_same_words<S: Scalar>(t: DpTask<S>, ref_start: int, expected_offset: int)
    requires
        0 <= ref_start,
        ref_start + t.refs.len() <= usize::MAX,
    ensures
        ({
            let a = best_alignment(t, ref_start, expected_offset);
            &&& a.to_ref.len() == t.obs.len() && a.is_match.len() == t.obs.len()
            &&& a.matches == set_flags(a.is_match)
            &&& forall|k: int|
                0 <= k < t.obs.len() ==> match #[trigger] a.to_ref[k] {
                    None => !a.is_match[k],
                    Some(x) => ref_start <= x < ref_start + t.refs.len() && a.is_match[k] == (t.obs[k]
                        == t.refs[x - ref_start] && t.obs[k] != 0),
                }
        }),
{
    let m = t.obs.len();
    let n = t.refs.len();
    if m == 0 || n == 0 {
        lemma_no_flags(m);
    } else {
        let best = least_cost(t, n + 1);
        let hits = most_hits(t, best, n + 1);
        lemma_first_end(t, best, hits, 0);
        lemma_trace_hits(t, ref_start, m, first_end(t, best, hits, 0));
    }
}

proof fn lemma_no_flags(m: nat)
    ensures
        set_flags(Seq::new(m, |i: int| false)) == 0,
    decreases m,
{
    if m > 0 {
        lemma_no_flags((m - 1) as nat);
        assert(Seq::new(m, |i: int| false).drop_last() =~= Seq::new((m - 1) as nat, |i: int| false));
    }
}

/// Pairs stay near where they are expected: reference word `j` is only considered for
/// heard word `i` within the band around its place, but for the last reference word.
pub proof fn law_band_lies_around_the_expected_place<S>(t: DpTask<S>, i: int, j: int)
    requires
        1 <= j < t.refs.len(),
        0 <= t.band,
    ensures
        band_lo(t, i) <= j <= band_hi(t, i) <==> -t.band <= j - (i + t.offset) <= t.band,
{
}

/// Of two ways the cheaper one is taken, and of two as cheap the one with more hits.
pub proof fn law_cheaper_cells_win<S: Scalar>(a: Cell<S>, b: Cell<S>)
    ensures
        better(a, b) == a || better(a, b) == b,
        better(a, b).cost.rank() <= a.cost.rank(),
        better(a, b).cost.rank() <= b.cost.rank(),
        a.cost.rank() == b.cost.rank() ==> better(a, b).hits >= a.hits && better(a, b).hits >= b.hits,
{
}

proof fn lemma_ends<S: Scalar>(t: DpTask<S>, best: S, k: nat)
    ensures
        forall|j: nat|
            j < k && (#[trigger] cell(t, t.obs.len(), j)).cost.rank() == best.rank() ==> cell(t, t.obs.len(), j).hits
                <= most_hits(t, best, k),
        most_hits(t, best, k) == 0 || exists|j: nat|
            j < k && (#[trigger] cell(t, t.obs.len(), j)).cost.rank() == best.rank() && cell(t, t.obs.len(), j).hits
                == most_hits(t, best, k),
    decreases k,
{
    if k > 0 {
        lemma_ends(t, best, (k - 1) as nat);
        let before = most_hits(t, best, (k - 1) as nat);
        if most_hits(t, best, k) == before && before != 0 {
            let j = choose|j: nat|
                j < k - 1 && (#[trigger] cell(t, t.obs.len(), j)).cost.rank() == best.rank() && cell(
                    t,
                    t.obs.len(),
                    j,
                ).hits == before;
            assert(cell(t, t.obs.len(), j).hits == most_hits(t, best, k));
        }
    }
}

/// Of the places in the reference where an alignment may end at least cost, it ends at
/// one with the most hits, at the first of them.
pub proof fn law_alignment_ends_at_the_most_hits<S: Scalar>(t: DpTask<S>, best: S, hits: int, k: nat, j: nat)
    requires
        k <= j <= t.refs.len(),
        cell(t, t.obs.len(), j).cost.rank() == best.rank(),
        cell(t, t.obs.len(), j).hits == hits,
    ensures
        ({
            let e = first_end(t, best, hits, k);
            &&& k <= e <= j
            &&& cell(t, t.obs.len(), e).cost.rank() == best.rank() && cell(t, t.obs.len(), e).hits == hits
            &&& hits == most_hits(t, best, t.refs.len() + 1) ==> forall|o: nat|
                o <= t.refs.len() && (#[trigger] cell(t, t.obs.len(), o)).cost.rank() == best.rank() ==> cell(
                    t,
                    t.obs.len(),
                    o,
                ).hits <= hits
        }),
    decreases j - k,
{
    lemma_ends(t, best, t.refs.len() + 1);
    if !is_end(t, best, hits, k) {
        assert(k < j);
        law_alignment_ends_at_the_most_hits(t, best, hits, k + 1, j);
    }
}

} // verus!
