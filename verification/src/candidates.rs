//! Stretches of the reference in which a transcript may lie.
//!
//! Two searches propose stretches: one compares the transcript's hash with the
//! hashes of all passages, the other lets rare words vote for the offset between
//! transcript and reference.

use rustc_hash::FxBuildHasher;
use rustc_hash::FxHashMap;
use vstd::prelude::*;

use crate::assets;
use crate::assets::AlignmentAssetsV2;
use crate::dp::Source;
use crate::fx;
use crate::scalar::Scalar;
use crate::sorting;
use crate::sorting::Keyed;
use crate::text;

verus! {

/// A stretch of the reference that may hold the transcript.
pub struct CandidateWindow<S> {
    pub ref_start: usize,
    pub ref_end: usize,
    /// By how much a reference word's number is expected to exceed the number of
    /// the heard word that stands for it.
    pub expected_offset: i32,
    pub source: Source,
    /// Distance and rank of the passage that proposed the stretch.
    pub hint: Option<(u32, usize)>,
    pub quick_score: S,
}

impl<S: Copy> Clone for CandidateWindow<S> {
    fn clone(&self) -> (r: Self)
        ensures
            r == *self,
    {
        *self
    }
}

impl<S: Copy> Copy for CandidateWindow<S> {

}

/// How wide the search is.
#[derive(Clone, Copy)]
pub struct SearchLimits {
    pub top_simhash: usize,
    pub top_anchor_offsets: usize,
    pub anchor_token_budget: usize,
    pub window_margin_ayahs: usize,
    pub window_margin_tokens: usize,
}

impl SearchLimits {
    pub open spec fn fits(self) -> bool {
        self.window_margin_ayahs <= i32::MAX && self.window_margin_tokens <= i32::MAX
    }
}

/// The weight of a word: zero where none is known.
pub open spec fn idf_of<S: Scalar>(a: AlignmentAssetsV2<S>, id: u32) -> S {
    if id < a.token_idf.items().len() {
        a.token_idf.items()[id as int]
    } else {
        S::whole_spec(0)
    }
}

pub fn idf_at<S: Scalar>(a: &AlignmentAssetsV2<S>, id: u32) -> (r: S)
    ensures
        r == idf_of(*a, id),
{
    let idf = a.token_idf.as_slice();
    if (id as usize) < idf.len() {
        idf[id as usize]
    } else {
        S::whole(0)
    }
}

/// A word that is too frequent to tell places apart.
pub open spec fn is_stop<S: Scalar>(a: AlignmentAssetsV2<S>, id: u32) -> bool {
    id < a.stop_mask@.len() && a.stop_mask@[id as int]
}

// ---------------------------------------------------------------------------
// Passages with a similar hash

/// A passage and its distance from the transcript.
#[derive(Clone, Copy)]
pub struct Near {
    pub index: usize,
    pub dist: u32,
}

impl Keyed for Near {
    open spec fn key(self) -> (int, int) {
        (self.dist as int, 0)
    }

    fn before(&self, other: &Self) -> (r: bool) {
        self.dist < other.dist
    }
}

/// All passages with their distances, in the order of the passages.
pub open spec fn distances(hashes: Seq<u64>, query: u64) -> Seq<Near> {
    Seq::new(
        hashes.len(),
        |i: int| Near { index: i as usize, dist: text::differing_bits(hashes[i], query, 64) as u32 },
    )
}

pub open spec fn max_int(a: int, b: int) -> int {
    if a < b {
        b
    } else {
        a
    }
}

pub open spec fn min_int(a: int, b: int) -> int {
    if b < a {
        b
    } else {
        a
    }
}

/// The stretch around the middle of a passage, widened by the margins.
pub open spec fn passage_window<S: Scalar>(
    a: AlignmentAssetsV2<S>,
    m: int,
    near: Near,
    rank: int,
    limits: SearchLimits,
) -> CandidateWindow<S> {
    let total = a.ref_token_ids.items().len() as int;
    let first = max_int(a.passages_start_ayah_global.items()[near.index as int] - limits.window_margin_ayahs, 1);
    let last = min_int(
        a.passages_end_ayah_global.items()[near.index as int] + limits.window_margin_ayahs,
        assets::verse_count(a.ayah_token_start.items()) as int,
    );
    let center = (a.ayah_token_start.items()[first] + a.ayah_token_end.items()[last]) / 2;
    let half = m / 2;
    let start = max_int(center - half - limits.window_margin_tokens, 0);
    let end = max_int(min_int(center + (m - half) + limits.window_margin_tokens, total), start);
    CandidateWindow {
        ref_start: start as usize,
        ref_end: end as usize,
        expected_offset: (center - half) as i32,
        source: Source::Simhash,
        hint: Some((near.dist, rank as usize)),
        quick_score: S::whole_spec(0),
    }
}

/// The stretches around the passages nearest to the transcript.
pub open spec fn passage_windows<S: Scalar>(
    a: AlignmentAssetsV2<S>,
    m: int,
    query: Seq<char>,
    limits: SearchLimits,
) -> Seq<CandidateWindow<S>> {
    let hashes = a.passages_simhash64.items();
    if query.len() == 0 || hashes.len() == 0 {
        Seq::empty()
    } else {
        let order = sorting::sorted(distances(hashes, text::simhash_of(query)));
        let count = if limits.top_simhash < order.len() {
            limits.top_simhash as nat
        } else {
            order.len()
        };
        Seq::new(count, |r: int| passage_window(a, m, order[r], r, limits))
    }
}

fn measure_distances(hashes: &[u64], query: u64) -> (r: Vec<Near>)
    ensures
        r@ == distances(hashes@, query),
{
    let mut out: Vec<Near> = Vec::new();
    let mut i: usize = 0;
    while i < hashes.len()
        invariant
            i <= hashes@.len(),
            out@ == distances(hashes@, query).take(i as int),
        decreases hashes@.len() - i,
    {
        out.push(Near { index: i, dist: text::hamming64(hashes[i], query) });
        assert(out@ =~= distances(hashes@, query).take(i as int + 1));
        i = i + 1;
    }
    assert(out@ =~= distances(hashes@, query));
    out
}

proof fn lemma_order_indexes(hashes: Seq<u64>, query: u64)
    ensures
        sorting::sorted(distances(hashes, query)).len() == hashes.len(),
        forall|k: int|
            0 <= k < hashes.len() ==> (#[trigger] sorting::sorted(distances(hashes, query))[k]).index
                < hashes.len() || hashes.len() > usize::MAX,
{
    broadcast use vstd::seq_lib::group_to_multiset_ensures;

    let d = distances(hashes, query);
    let s = sorting::sorted(d);
    sorting::lemma_sorted_len(d);
    assert forall|k: int| 0 <= k < hashes.len() implies (#[trigger] s[k]).index < hashes.len() || hashes.len()
        > usize::MAX by {
        assert(s.contains(s[k]));
        assert(s.to_multiset().count(s[k]) > 0);
        assert(d.to_multiset().count(s[k]) > 0);
        assert(d.contains(s[k]));
    }
}

fn window_of_passage<S: Scalar>(
    a: &AlignmentAssetsV2<S>,
    m: usize,
    near: Near,
    rank: usize,
    limits: SearchLimits,
) -> (r: CandidateWindow<S>)
    requires
        a.wf(),
        limits.fits(),
        m <= i32::MAX,
        near.index < a.passages_simhash64.items().len(),
    ensures
        r == passage_window(*a, m as int, near, rank as int, limits),
{
    let total: i64 = a.total_tokens() as i64;
    let starts = a.ayah_token_start.as_slice();
    let ends = a.ayah_token_end.as_slice();
    let ps: u16 = a.passages_start_ayah_global.as_slice()[near.index];
    let pe: u16 = a.passages_end_ayah_global.as_slice()[near.index];
    let low: i64 = ps as i64 - limits.window_margin_ayahs as i64;
    let first: usize = if low < 1 {
        1
    } else {
        low as usize
    };
    let verses: usize = a.total_ayahs();
    let high: usize = pe as usize + limits.window_margin_ayahs;
    let last: usize = if verses < high {
        verses
    } else {
        high
    };
    let p: u32 = starts[first];
    let q: u32 = ends[last];
    assert(p <= i32::MAX && q <= i32::MAX);
    let center: i64 = (p as i64 + q as i64) / 2;
    let half: i64 = (m / 2) as i64;
    let margin: i64 = limits.window_margin_tokens as i64;
    let from: i64 = center - half - margin;
    let start: i64 = if from < 0 {
        0
    } else {
        from
    };
    let to: i64 = center + (m as i64 - half) + margin;
    let cut: i64 = if total < to {
        total
    } else {
        to
    };
    let end: i64 = if cut < start {
        start
    } else {
        cut
    };
    CandidateWindow {
        ref_start: start as usize,
        ref_end: end as usize,
        expected_offset: (center - half) as i32,
        source: Source::Simhash,
        hint: Some((near.dist, rank)),
        quick_score: S::whole(0),
    }
}

/// The stretches around the passages nearest to the transcript.
pub fn propose_passages<S: Scalar>(
    a: &AlignmentAssetsV2<S>,
    m: usize,
    query: &str,
    limits: SearchLimits,
) -> (r: Vec<CandidateWindow<S>>)
    requires
        a.wf(),
        limits.fits(),
        m <= i32::MAX,
    ensures
        r@ == passage_windows(*a, m as int, query@, limits),
{
    let hashes = a.passages_simhash64.as_slice();
    let mut out: Vec<CandidateWindow<S>> = Vec::new();
    if text::is_blank(query) || hashes.len() == 0 {
        assert(out@ =~= passage_windows(*a, m as int, query@, limits));
        return out;
    }
    let hash: u64 = text::simhash64_from_char_ngrams(query);
    let order = sorting::sort(&measure_distances(hashes, hash));
    proof {
        lemma_order_indexes(hashes@, hash);
    }
    let count: usize = if limits.top_simhash < order.len() {
        limits.top_simhash
    } else {
        order.len()
    };
    let ghost want = passage_windows(*a, m as int, query@, limits);
    let mut rank: usize = 0;
    while rank < count
        invariant
            a.wf(),
            limits.fits(),
            m <= i32::MAX,
            rank <= count <= order@.len(),
            order@.len() == a.passages_simhash64.items().len(),
            order@.len() <= usize::MAX,
            want.len() == count,
            want == Seq::new(count as nat, |r: int| passage_window(*a, m as int, order@[r], r, limits)),
            out@ == want.take(rank as int),
            forall|k: int|
                0 <= k < order@.len() ==> (#[trigger] order@[k]).index < a.passages_simhash64.items().len(),
        decreases count - rank,
    {
        out.push(window_of_passage(a, m, order[rank], rank, limits));
        assert(out@ =~= want.take(rank as int + 1));
        rank = rank + 1;
    }
    assert(out@ =~= want);
    out
}

// ---------------------------------------------------------------------------
// Rare words that vote for an offset

/// Where `id` stands among the heard words.
pub open spec fn positions(obs: Seq<u32>, id: u32) -> Seq<usize>
    decreases obs.len(),
{
    if obs.len() == 0 {
        Seq::empty()
    } else if obs.last() == id {
        positions(obs.drop_last(), id).push((obs.len() - 1) as usize)
    } else {
        positions(obs.drop_last(), id)
    }
}

/// The heard words of the vocabulary.
pub open spec fn known_words(obs: Seq<u32>) -> Set<u32> {
    Set::new(|id: u32| id != 0 && obs.contains(id))
}

/// A word and its weight; heavier words come first.
pub struct Weighed<S> {
    pub weight: S,
    pub id: u32,
}

impl<S: Copy> Clone for Weighed<S> {
    fn clone(&self) -> (r: Self)
        ensures
            r == *self,
    {
        *self
    }
}

impl<S: Copy> Copy for Weighed<S> {

}

impl<S: Scalar> Keyed for Weighed<S> {
    open spec fn key(self) -> (int, int) {
        (-self.weight.rank(), 0)
    }

    fn before(&self, other: &Self) -> (r: bool) {
        other.weight.below(self.weight)
    }
}

/// The words of `walk` that tell places apart, with their weights.
pub open spec fn telling_words<S: Scalar>(a: AlignmentAssetsV2<S>, walk: Seq<u32>) -> Seq<Weighed<S>>
    decreases walk.len(),
{
    if walk.len() == 0 {
        Seq::empty()
    } else {
        let before = telling_words(a, walk.drop_last());
        let id = walk.last();
        if id >= a.stop_mask@.len() || a.stop_mask@[id as int] || idf_of(a, id).rank() <= S::whole_spec(0).rank() {
            before
        } else {
            before.push(Weighed { weight: idf_of(a, id), id })
        }
    }
}

/// The words of `walk` that tell places apart, the rarest first.
pub fn rank_words<S: Scalar>(a: &AlignmentAssetsV2<S>, walk: &[u32]) -> (r: Vec<Weighed<S>>)
    ensures
        r@ == sorting::sorted(telling_words(*a, walk@)),
{
    let mut out: Vec<Weighed<S>> = Vec::new();
    let mut i: usize = 0;
    while i < walk.len()
        invariant
            i <= walk@.len(),
            out@ == telling_words(*a, walk@.take(i as int)),
        decreases walk@.len() - i,
    {
        assert(walk@.take(i as int + 1).drop_last() =~= walk@.take(i as int));
        let id: u32 = walk[i];
        if (id as usize) < a.stop_mask.len() && !a.stop_mask[id as usize] {
            let weight: S = idf_at(a, id);
            if S::whole(0).below(weight) {
                out.push(Weighed { weight, id });
            }
        }
        i = i + 1;
    }
    assert(walk@.take(walk@.len() as int) =~= walk@);
    sorting::sort(&out)
}

/// The places of a word that vote: the first, the middle and the last.
pub open spec fn voting_places(pos: Seq<usize>) -> Seq<usize> {
    if pos.len() <= 2 {
        pos
    } else {
        seq![pos[0], pos[pos.len() as int / 2], pos.last()]
    }
}

/// Where the index lists the occurrences of a word, if it lists any.
pub open spec fn listing<S: Scalar>(a: AlignmentAssetsV2<S>, id: u32) -> Option<(int, int)> {
    let offsets = a.inv_offsets.items();
    if id + 1 >= offsets.len() {
        None
    } else if offsets[id as int] >= offsets[id + 1] || offsets[id + 1] > a.inv_positions.items().len() {
        None
    } else {
        Some((offsets[id as int] as int, offsets[id + 1] as int))
    }
}

/// How many occurrences of a word the index lists.
pub open spec fn listed_count<S: Scalar>(a: AlignmentAssetsV2<S>, id: u32) -> int {
    match listing(a, id) {
        None => 0,
        Some(l) => l.1 - l.0,
    }
}

/// Of many occurrences only every `stride`-th is looked at.
pub open spec fn stride(n: int) -> int {
    if n > 2000 {
        n / 2000
    } else {
        1
    }
}

/// A vote for an offset.
pub struct Vote<S> {
    pub off: i32,
    pub weight: S,
}

impl<S: Copy> Clone for Vote<S> {
    fn clone(&self) -> (r: Self)
        ensures
            r == *self,
    {
        *self
    }
}

impl<S: Copy> Copy for Vote<S> {

}

/// The votes of one place of a word, from the `k`-th looked-at occurrence
/// backwards.
pub open spec fn place_votes<S: Scalar>(a: AlignmentAssetsV2<S>, id: u32, place: usize, k: nat) -> Seq<Vote<S>>
    decreases k,
{
    if k == 0 {
        Seq::empty()
    } else {
        let l = listing(a, id)->0;
        let at = l.0 + (k - 1) * stride(l.1 - l.0);
        place_votes(a, id, place, (k - 1) as nat).push(
            Vote { off: (a.inv_positions.items()[at] - place) as i32, weight: idf_of(a, id) },
        )
    }
}

/// How many of `n` occurrences are looked at.
pub open spec fn looked_at(n: int) -> nat {
    ((n + stride(n) - 1) / stride(n)) as nat
}

/// The votes of the first `k` of a word's voting places.
pub open spec fn word_votes<S: Scalar>(a: AlignmentAssetsV2<S>, id: u32, places: Seq<usize>, k: nat) -> Seq<Vote<S>>
    decreases k,
{
    if k == 0 {
        Seq::empty()
    } else {
        word_votes(a, id, places, (k - 1) as nat) + place_votes(a, id, places[k - 1], looked_at(listed_count(a, id)))
    }
}

/// The votes of the first `k` words.
pub open spec fn ballots<S: Scalar>(
    a: AlignmentAssetsV2<S>,
    obs: Seq<u32>,
    ranked: Seq<Weighed<S>>,
    k: nat,
) -> Seq<Vote<S>>
    decreases k,
{
    if k == 0 {
        Seq::empty()
    } else {
        let before = ballots(a, obs, ranked, (k - 1) as nat);
        let id = ranked[k - 1].id;
        let places = voting_places(positions(obs, id));
        if listing(a, id) is None {
            before
        } else {
            before + word_votes(a, id, places, places.len())
        }
    }
}

/// The sums of votes by offset.
pub open spec fn tally<S: Scalar>(votes: Seq<Vote<S>>) -> Map<i32, S>
    decreases votes.len(),
{
    if votes.len() == 0 {
        Map::empty()
    } else {
        let before = tally(votes.drop_last());
        let v = votes.last();
        let sum = if before.dom().contains(v.off) {
            before[v.off]
        } else {
            S::whole_spec(0)
        };
        before.insert(v.off, sum.plus_spec(v.weight))
    }
}

fn group_positions(obs: &[u32]) -> (r: FxHashMap<u32, Vec<usize>>)
    ensures
        vstd::std_specs::hash::builds_valid_hashers::<FxBuildHasher>(),
        r@.dom() == known_words(obs@),
        forall|id: u32| #[trigger] r@.dom().contains(id) ==> r@[id]@ == positions(obs@, id),
{
    broadcast use vstd::std_specs::hash::group_hash_axioms;

    let mut map: FxHashMap<u32, Vec<usize>> = fx::new_map();
    let mut i: usize = 0;
    assert(map@.dom() =~= known_words(obs@.take(0)));
    while i < obs.len()
        invariant
            i <= obs@.len(),
            vstd::std_specs::hash::builds_valid_hashers::<FxBuildHasher>(),
            map@.dom() == known_words(obs@.take(i as int)),
            forall|id: u32| #[trigger] map@.dom().contains(id) ==> map@[id]@ == positions(obs@.take(i as int), id),
        decreases obs@.len() - i,
    {
        broadcast use vstd::std_specs::hash::group_hash_axioms;

        let ghost old_obs = obs@.take(i as int);
        let ghost new_obs = obs@.take(i as int + 1);
        let ghost old_map = map@;
        let id: u32 = obs[i];
        proof {
            assert(new_obs.drop_last() =~= old_obs);
            assert(new_obs =~= old_obs.push(id));
        }
        if id != 0 {
            let mut list: Vec<usize> = match map.remove(&id) {
                Some(v) => v,
                None => Vec::new(),
            };
            proof {
                if !old_map.dom().contains(id) {
                    lemma_no_positions(old_obs, id);
                }
                assert(list@ =~= positions(old_obs, id));
            }
            list.push(i);
            map.insert(id, list);
        }
        proof {
            assert forall|q: u32| map@.dom().contains(q) == known_words(new_obs).contains(q) by {
                if q == id {
                    assert(new_obs[i as int] == q);
                    assert(new_obs.contains(q));
                } else {
                    if old_obs.contains(q) {
                        let k = choose|k: int| 0 <= k < old_obs.len() && old_obs[k] == q;
                        assert(new_obs[k] == q);
                    }
                    if new_obs.contains(q) {
                        let k = choose|k: int| 0 <= k < new_obs.len() && new_obs[k] == q;
                        assert(k < i);
                        assert(old_obs[k] == q);
                    }
                }
            }
            assert(map@.dom() =~= known_words(new_obs));
        }
        i = i + 1;
    }
    assert(obs@.take(obs@.len() as int) =~= obs@);
    map
}

proof fn lemma_no_positions(obs: Seq<u32>, id: u32)
    requires
        !obs.contains(id),
    ensures
        positions(obs, id).len() == 0,
    decreases obs.len(),
{
    if obs.len() > 0 {
        assert(obs[obs.len() - 1] != id);
        let p = obs.drop_last();
        assert(!p.contains(id)) by {
            if p.contains(id) {
                let k = choose|k: int| 0 <= k < p.len() && p[k] == id;
                assert(obs[k] == id);
            }
        }
        lemma_no_positions(p, id);
    }
}

proof fn lemma_positions(obs: Seq<u32>, id: u32)
    ensures
        positions(obs, id).len() <= obs.len(),
        forall|k: int| 0 <= k < positions(obs, id).len() && obs.len() <= usize::MAX ==> (#[trigger] positions(obs, id)[k]) < obs.len(),
    decreases obs.len(),
{
    if obs.len() > 0 {
        lemma_positions(obs.drop_last(), id);
    }
}

fn cast_place<S: Scalar>(
    a: &AlignmentAssetsV2<S>,
    id: u32,
    place: usize,
    sums: &mut FxHashMap<i32, S>,
    Ghost(done): Ghost<Seq<Vote<S>>>,
)
    requires
        a.wf(),
        place < i32::MAX,
        listing(*a, id) is Some,
        vstd::std_specs::hash::builds_valid_hashers::<FxBuildHasher>(),
        old(sums)@ == tally(done),
    ensures
        final(sums)@ == tally(
            done + place_votes(
                *a,
                id,
                place,
                looked_at(listed_count(*a, id)),
            ),
        ),
{
    broadcast use vstd::std_specs::hash::group_hash_axioms;

    let from: usize = a.inv_offsets.as_slice()[id as usize] as usize;
    let to: usize = a.inv_offsets.as_slice()[id as usize + 1] as usize;
    let n: usize = to - from;
    let occ = a.inv_positions.as_slice();
    let weight: S = idf_at(a, id);
    let step: usize = if n > 2000 {
        n / 2000
    } else {
        1
    };
    let ghost l = listing(*a, id)->0;
    let ghost total = looked_at(n as int);
    let mut at: u64 = from as u64;
    let ghost mut k: nat = 0;
    assert(done + place_votes(*a, id, place, 0) =~= done);
    while at < to as u64
        invariant
            a.wf(),
            place < i32::MAX,
            listing(*a, id) == Some((from as int, to as int)),
            l == (from as int, to as int),
            vstd::std_specs::hash::builds_valid_hashers::<FxBuildHasher>(),
            n == to - from,
            n > 0,
            step == stride(n as int),
            step >= 1,
            step <= n,
            total == looked_at(n as int),
            weight == idf_of(*a, id),
            occ@ == a.inv_positions.items(),
            to <= occ@.len(),
            to <= u32::MAX,
            at == from + k * step,
            at < to + step,
            k == 0 ==> at == from,
            sums@ == tally(done + place_votes(*a, id, place, k)),
        decreases to + step - at,
    {
        broadcast use vstd::std_specs::hash::group_hash_axioms;

        assert(occ@[at as int] <= i32::MAX);
        let off: i32 = (occ[at as usize] as i64 - place as i64) as i32;
        let sum: S = match sums.get(&off) {
            Some(v) => *v,
            None => S::whole(0),
        };
        sums.insert(off, sum.plus(weight));
        proof {
            let before = done + place_votes(*a, id, place, k);
            let after = done + place_votes(*a, id, place, k + 1);
            assert(after.drop_last() =~= before);
            assert((k + 1) * step == k * step + step) by (nonlinear_arith);
            k = k + 1;
        }
        at = at + step as u64;
    }
    proof {
        assert(k == total) by (nonlinear_arith)
            requires
                total == ((n + step - 1) / (step as int)) as nat,
                step >= 1,
                n >= 1,
                k * step >= n,
                k * step - step < n,
        ;
    }
}

/// Casts the votes of the first words of `ranked`, at most `budget` of them.
fn cast_ballots<S: Scalar>(
    a: &AlignmentAssetsV2<S>,
    obs: &[u32],
    places_of: &FxHashMap<u32, Vec<usize>>,
    ranked: &[Weighed<S>],
    budget: usize,
) -> (r: FxHashMap<i32, S>)
    requires
        a.wf(),
        obs@.len() < i32::MAX,
        vstd::std_specs::hash::builds_valid_hashers::<FxBuildHasher>(),
        forall|id: u32| #[trigger] places_of@.dom().contains(id) ==> places_of@[id]@ == positions(obs@, id),
        forall|k: int| 0 <= k < ranked@.len() ==> places_of@.dom().contains((#[trigger] ranked@[k]).id),
    ensures
        r@ == tally(ballots(*a, obs@, ranked@, min_int(ranked@.len() as int, budget as int) as nat)),
{
    broadcast use vstd::std_specs::hash::group_hash_axioms;

    let mut sums: FxHashMap<i32, S> = fx::new_map();
    let count: usize = if budget < ranked.len() {
        budget
    } else {
        ranked.len()
    };
    let mut i: usize = 0;
    while i < count
        invariant
            a.wf(),
            obs@.len() < i32::MAX,
            vstd::std_specs::hash::builds_valid_hashers::<FxBuildHasher>(),
            forall|id: u32| #[trigger] places_of@.dom().contains(id) ==> places_of@[id]@ == positions(obs@, id),
            forall|k: int| 0 <= k < ranked@.len() ==> places_of@.dom().contains((#[trigger] ranked@[k]).id),
            i <= count <= ranked@.len(),
            sums@ == tally(ballots(*a, obs@, ranked@, i as nat)),
        decreases count - i,
    {
        broadcast use vstd::std_specs::hash::group_hash_axioms;

        let id: u32 = ranked[i].id;
        let ghost done = ballots(*a, obs@, ranked@, i as nat);
        assert(places_of@.dom().contains(ranked@[i as int].id));
        match places_of.get(&id) {
            Some(list) => {
                if is_listed(a, id) {
                    let places = pick_places(list);
                    proof {
                        lemma_positions(obs@, id);
                    }
                    let mut j: usize = 0;
                    assert(done + word_votes(*a, id, places@, 0) =~= done);
                    while j < places.len()
                        invariant
                            a.wf(),
                            vstd::std_specs::hash::builds_valid_hashers::<FxBuildHasher>(),
                            listing(*a, id) is Some,
                            j <= places@.len(),
                            forall|k: int| 0 <= k < places@.len() ==> (#[trigger] places@[k]) < i32::MAX,
                            sums@ == tally(done + word_votes(*a, id, places@, j as nat)),
                        decreases places@.len() - j,
                    {
                        let ghost so_far = done + word_votes(*a, id, places@, j as nat);
                        assert(places@[j as int] < i32::MAX);
                        cast_place(a, id, places[j], &mut sums, Ghost(so_far));
                        proof {
                            let more = place_votes(*a, id, places@[j as int], looked_at(listed_count(*a, id)));
                            assert(so_far + more =~= done + word_votes(*a, id, places@, (j + 1) as nat));
                        }
                        j = j + 1;
                    }
                }
            },
            None => {
                assert(false);
            },
        }
        i = i + 1;
    }
    sums
}

fn is_listed<S: Scalar>(a: &AlignmentAssetsV2<S>, id: u32) -> (r: bool)
    ensures
        r == (listing(*a, id) is Some),
{
    let offsets = a.inv_offsets.as_slice();
    let n: usize = offsets.len();
    if n < 2 || (id as usize) > n - 2 {
        return false;
    }
    let from: u32 = offsets[id as usize];
    let to: u32 = offsets[id as usize + 1];
    from < to && (to as usize) <= a.inv_positions.len()
}

fn pick_places(pos: &Vec<usize>) -> (r: Vec<usize>)
    ensures
        r@ == voting_places(pos@),
        forall|k: int| 0 <= k < r@.len() ==> pos@.contains(#[trigger] r@[k]),
{
    let n: usize = pos.len();
    let mut out: Vec<usize> = Vec::new();
    if n > 0 {
        out.push(pos[0]);
    }
    if n > 2 {
        out.push(pos[n / 2]);
    }
    if n > 1 {
        out.push(pos[n - 1]);
    }
    assert(out@ =~= voting_places(pos@));
    out
}

/// An offset and the votes for it. More votes come first, then offsets nearer to
/// zero.
pub struct Peak<S> {
    pub off: i32,
    pub score: S,
}

impl<S: Copy> Clone for Peak<S> {
    fn clone(&self) -> (r: Self)
        ensures
            r == *self,
    {
        *self
    }
}

impl<S: Copy> Copy for Peak<S> {

}

pub open spec fn abs_int(x: int) -> int {
    if x < 0 {
        -x
    } else {
        x
    }
}

fn magnitude(x: i32) -> (r: i64)
    ensures
        r == abs_int(x as int),
{
    let y: i64 = x as i64;
    if y < 0 {
        -y
    } else {
        y
    }
}

impl<S: Scalar> Keyed for Peak<S> {
    open spec fn key(self) -> (int, int) {
        (-self.score.rank(), abs_int(self.off as int))
    }

    fn before(&self, other: &Self) -> (r: bool) {
        if other.score.below(self.score) {
            true
        } else if self.score.below(other.score) {
            false
        } else {
            magnitude(self.off) < magnitude(other.off)
        }
    }
}

/// The offsets of `walk` with their sums.
pub open spec fn peaks_of<S: Scalar>(walk: Seq<i32>, sums: Map<i32, S>) -> Seq<Peak<S>> {
    walk.map_values(|o: i32| Peak { off: o, score: sums[o] })
}

/// One of the offsets lies nearer than 25 words to `off`.
pub open spec fn is_crowded(chosen: Seq<i32>, off: i32) -> bool {
    exists|k: int| 0 <= k < chosen.len() && abs_int(off - #[trigger] chosen[k]) < 25
}

/// The offsets chosen among the first `k` peaks: in order, except those near an
/// offset already chosen, until there are `top`.
pub open spec fn chosen_offsets<S>(peaks: Seq<Peak<S>>, top: int, k: nat) -> Seq<i32>
    decreases k,
{
    if k == 0 {
        Seq::empty()
    } else {
        let before = chosen_offsets(peaks, top, (k - 1) as nat);
        let off = peaks[k - 1].off;
        if (before.len() > 0 && before.len() >= top) || is_crowded(before, off) {
            before
        } else {
            before.push(off)
        }
    }
}

fn crowded(chosen: &Vec<i32>, off: i32) -> (r: bool)
    ensures
        r == is_crowded(chosen@, off),
{
    let mut k: usize = 0;
    while k < chosen.len()
        invariant
            k <= chosen@.len(),
            forall|j: int| 0 <= j < k ==> abs_int(off - #[trigger] chosen@[j]) >= 25,
        decreases chosen@.len() - k,
    {
        let gap: i64 = off as i64 - chosen[k] as i64;
        if -25 < gap && gap < 25 {
            assert(abs_int(off - chosen@[k as int]) < 25);
            return true;
        }
        k = k + 1;
    }
    false
}

/// Chooses offsets among peaks that are in order.
pub fn choose_offsets<S: Scalar>(peaks: &[Peak<S>], top: usize) -> (r: Vec<i32>)
    ensures
        r@ == chosen_offsets(peaks@, top as int, peaks@.len()),
{
    let mut chosen: Vec<i32> = Vec::new();
    let mut i: usize = 0;
    while i < peaks.len()
        invariant
            i <= peaks@.len(),
            chosen@ == chosen_offsets(peaks@, top as int, i as nat),
        decreases peaks@.len() - i,
    {
        let off: i32 = peaks[i].off;
        let full: bool = chosen.len() > 0 && chosen.len() >= top;
        if !full && !crowded(&chosen, off) {
            chosen.push(off);
        }
        i = i + 1;
    }
    chosen
}

/// The stretch that begins at an offset, widened by the margins.
pub open spec fn anchor_window<S: Scalar>(
    total: int,
    m: int,
    off: i32,
    limits: SearchLimits,
) -> CandidateWindow<S> {
    let start = max_int(off - limits.window_margin_tokens, 0);
    let end = max_int(min_int(off + m + limits.window_margin_tokens, total), start);
    CandidateWindow {
        ref_start: start as usize,
        ref_end: end as usize,
        expected_offset: off,
        source: Source::Anchor,
        hint: None,
        quick_score: S::whole_spec(0),
    }
}

fn window_at_offset<S: Scalar>(total: usize, m: usize, off: i32, limits: SearchLimits) -> (r: CandidateWindow<S>)
    requires
        limits.fits(),
        m <= i32::MAX,
        total < i32::MAX,
    ensures
        r == anchor_window::<S>(total as int, m as int, off, limits),
{
    let margin: i64 = limits.window_margin_tokens as i64;
    let from: i64 = off as i64 - margin;
    let start: i64 = if from < 0 {
        0
    } else {
        from
    };
    let to: i64 = off as i64 + m as i64 + margin;
    let cut: i64 = if (total as i64) < to {
        total as i64
    } else {
        to
    };
    let end: i64 = if cut < start {
        start
    } else {
        cut
    };
    CandidateWindow {
        ref_start: start as usize,
        ref_end: end as usize,
        expected_offset: off,
        source: Source::Anchor,
        hint: None,
        quick_score: S::whole(0),
    }
}

/// The stretches at the offsets with the most votes. The order in which the two
/// maps are walked decides only among equals.
pub open spec fn anchor_windows<S: Scalar>(
    a: AlignmentAssetsV2<S>,
    obs: Seq<u32>,
    limits: SearchLimits,
    word_walk: Seq<u32>,
    offset_walk: Seq<i32>,
) -> Seq<CandidateWindow<S>> {
    let ranked = sorting::sorted(telling_words(a, word_walk));
    let sums = offset_sums(a, obs, limits, word_walk);
    let peaks = sorting::sorted(peaks_of(offset_walk, sums));
    chosen_offsets(peaks, limits.top_anchor_offsets as int, peaks.len()).map_values(
        |off: i32| anchor_window::<S>(a.ref_token_ids.items().len() as int, obs.len() as int, off, limits),
    )
}

/// The votes for each offset.
pub open spec fn offset_sums<S: Scalar>(
    a: AlignmentAssetsV2<S>,
    obs: Seq<u32>,
    limits: SearchLimits,
    word_walk: Seq<u32>,
) -> Map<i32, S> {
    let ranked = sorting::sorted(telling_words(a, word_walk));
    tally(ballots(a, obs, ranked, min_int(ranked.len() as int, limits.anchor_token_budget as int) as nat))
}

proof fn lemma_telling_words<S: Scalar>(a: AlignmentAssetsV2<S>, walk: Seq<u32>)
    ensures
        forall|k: int|
            0 <= k < telling_words(a, walk).len() ==> walk.contains((#[trigger] telling_words(a, walk)[k]).id),
    decreases walk.len(),
{
    if walk.len() > 0 {
        let p = walk.drop_last();
        lemma_telling_words(a, p);
        assert forall|k: int| 0 <= k < telling_words(a, walk).len() implies walk.contains(
            (#[trigger] telling_words(a, walk)[k]).id,
        ) by {
            let w = telling_words(a, walk)[k];
            if k < telling_words(a, p).len() {
                assert(w == telling_words(a, p)[k]);
                assert(p.contains(w.id));
                let j = choose|j: int| 0 <= j < p.len() && p[j] == w.id;
                assert(walk[j] == w.id);
            } else {
                assert(walk[walk.len() - 1] == w.id);
            }
        }
    }
}

proof fn lemma_ranked_are_walked<S: Scalar>(a: AlignmentAssetsV2<S>, walk: Seq<u32>)
    ensures
        forall|k: int|
            0 <= k < sorting::sorted(telling_words(a, walk)).len() ==> walk.contains(
                (#[trigger] sorting::sorted(telling_words(a, walk))[k]).id,
            ),
{
    broadcast use vstd::seq_lib::group_to_multiset_ensures;

    let t = telling_words(a, walk);
    let s = sorting::sorted(t);
    lemma_telling_words(a, walk);
    sorting::lemma_sorted_len(t);
    assert forall|k: int| 0 <= k < s.len() implies walk.contains((#[trigger] s[k]).id) by {
        assert(s.contains(s[k]));
        assert(s.to_multiset().count(s[k]) > 0);
        assert(t.to_multiset().count(s[k]) > 0);
        assert(t.contains(s[k]));
        let j = choose|j: int| 0 <= j < t.len() && t[j] == s[k];
        assert(walk.contains(t[j].id));
    }
}

/// The stretches at the offsets with the most votes.
pub fn propose_anchors<S: Scalar>(
    a: &AlignmentAssetsV2<S>,
    obs: &[u32],
    limits: SearchLimits,
) -> (r: Vec<CandidateWindow<S>>)
    requires
        a.wf(),
        limits.fits(),
        obs@.len() < i32::MAX,
    ensures
        exists|word_walk: Seq<u32>, offset_walk: Seq<i32>|
            {
                &&& fx::is_walk(word_walk, known_words(obs@))
                &&& fx::is_walk(offset_walk, offset_sums(*a, obs@, limits, word_walk).dom())
                &&& r@ == #[trigger] anchor_windows(*a, obs@, limits, word_walk, offset_walk)
            },
{
    broadcast use vstd::std_specs::hash::group_hash_axioms;

    let places_of = group_positions(obs);
    let word_walk = fx::walk(&places_of);
    let ranked = rank_words(a, &word_walk);
    proof {
        lemma_ranked_are_walked(*a, word_walk@);
        assert forall|k: int| 0 <= k < ranked@.len() implies places_of@.dom().contains((#[trigger] ranked@[k]).id) by {
            assert(word_walk@.contains(ranked@[k].id));
            assert(word_walk@.to_set().contains(ranked@[k].id));
        }
    }
    let sums = cast_ballots(a, obs, &places_of, &ranked, limits.anchor_token_budget);
    let offset_walk = fx::walk(&sums);
    let mut list: Vec<Peak<S>> = Vec::new();
    let mut i: usize = 0;
    while i < offset_walk.len()
        invariant
            i <= offset_walk@.len(),
            vstd::std_specs::hash::builds_valid_hashers::<FxBuildHasher>(),
            offset_walk@.to_set() == sums@.dom(),
            list@ == peaks_of(offset_walk@, sums@).take(i as int),
        decreases offset_walk@.len() - i,
    {
        broadcast use vstd::std_specs::hash::group_hash_axioms;

        let off: i32 = offset_walk[i];
        assert(offset_walk@.contains(off));
        assert(offset_walk@.to_set().contains(off));
        let score: S = match sums.get(&off) {
            Some(v) => *v,
            None => S::whole(0),
        };
        list.push(Peak { off, score });
        assert(list@ =~= peaks_of(offset_walk@, sums@).take(i as int + 1));
        i = i + 1;
    }
    assert(list@ =~= peaks_of(offset_walk@, sums@));
    let peaks = sorting::sort(&list);
    let chosen = choose_offsets(&peaks, limits.top_anchor_offsets);
    let total: usize = a.total_tokens();
    let ghost want = anchor_windows(*a, obs@, limits, word_walk@, offset_walk@);
    let mut out: Vec<CandidateWindow<S>> = Vec::new();
    let mut k: usize = 0;
    while k < chosen.len()
        invariant
            limits.fits(),
            obs@.len() < i32::MAX,
            total == a.ref_token_ids.items().len(),
            total < i32::MAX,
            k <= chosen@.len(),
            want == chosen@.map_values(
                |off: i32| anchor_window::<S>(a.ref_token_ids.items().len() as int, obs@.len() as int, off, limits),
            ),
            out@ == want.take(k as int),
        decreases chosen@.len() - k,
    {
        out.push(window_at_offset(total, obs.len(), chosen[k], limits));
        assert(out@ =~= want.take(k as int + 1));
        k = k + 1;
    }
    assert(out@ =~= want);
    out
}

// ---------------------------------------------------------------------------
// One stretch per region

/// How much a source is trusted.
pub open spec fn priority_spec(s: Source) -> int {
    match s {
        Source::Anchor => 3,
        Source::Embed => 2,
        Source::Simhash => 1,
    }
}

pub fn priority(s: Source) -> (r: u8)
    ensures
        r == priority_spec(s),
{
    match s {
        Source::Anchor => 3,
        Source::Embed => 2,
        Source::Simhash => 1,
    }
}

/// The quotient of a division, cut towards zero.
pub open spec fn cut_quotient(x: int, d: int) -> int {
    if x < 0 {
        -((-x) / d)
    } else {
        x / d
    }
}

/// The region of a stretch: its start and its offset in units of 256 words, as
/// one number.
pub open spec fn region_of<S>(c: CandidateWindow<S>) -> i64 {
    ((c.ref_start as int / 256) * 0x1_0000_0000 + cut_quotient(c.expected_offset as int, 256) + 0x4000_0000) as i64
}

/// For each region the stretch of the most trusted source; of equally trusted
/// ones the first. Empty stretches are passed over.
pub open spec fn best_by_region<S>(list: Seq<CandidateWindow<S>>) -> Map<i64, CandidateWindow<S>>
    decreases list.len(),
{
    if list.len() == 0 {
        Map::empty()
    } else {
        let before = best_by_region(list.drop_last());
        let c = list.last();
        let k = region_of(c);
        if c.ref_end <= c.ref_start {
            before
        } else if !before.dom().contains(k) || priority_spec(c.source) > priority_spec(before[k].source) {
            before.insert(k, c)
        } else {
            before
        }
    }
}

/// The kept stretches in the order of their regions in `walk`.
pub open spec fn stretches_in<S>(list: Seq<CandidateWindow<S>>, walk: Seq<i64>) -> Seq<CandidateWindow<S>> {
    walk.map_values(|k: i64| best_by_region(list)[k])
}

fn region<S: Scalar>(c: &CandidateWindow<S>) -> (r: i64)
    requires
        c.ref_start <= 0x2_0000_0000,
    ensures
        r == region_of(*c),
{
    let off: i64 = c.expected_offset as i64;
    let q: i64 = if off < 0 {
        -((-off) / 256)
    } else {
        off / 256
    };
    (c.ref_start as i64 / 256) * 0x1_0000_0000 + q + 0x4000_0000
}

/// Different regions have different numbers.
pub proof fn law_regions_differ<S>(c: CandidateWindow<S>, d: CandidateWindow<S>)
    requires
        c.ref_start <= 0x2_0000_0000,
        d.ref_start <= 0x2_0000_0000,
        region_of(c) == region_of(d),
    ensures
        c.ref_start as int / 256 == d.ref_start as int / 256,
        cut_quotient(c.expected_offset as int, 256) == cut_quotient(d.expected_offset as int, 256),
{
}

/// Keeps one stretch per region.
pub fn keep_best_by_region<S: Scalar>(list: &[CandidateWindow<S>]) -> (r: Vec<CandidateWindow<S>>)
    requires
        forall|k: int| 0 <= k < list@.len() ==> (#[trigger] list@[k]).ref_start <= 0x2_0000_0000,
    ensures
        exists|walk: Seq<i64>|
            fx::is_walk(walk, best_by_region(list@).dom()) && r@ == #[trigger] stretches_in(list@, walk),
{
    broadcast use vstd::std_specs::hash::group_hash_axioms;

    let mut map: FxHashMap<i64, CandidateWindow<S>> = fx::new_map();
    let mut i: usize = 0;
    while i < list.len()
        invariant
            i <= list@.len(),
            vstd::std_specs::hash::builds_valid_hashers::<FxBuildHasher>(),
            forall|k: int| 0 <= k < list@.len() ==> (#[trigger] list@[k]).ref_start <= 0x2_0000_0000,
            map@ == best_by_region(list@.take(i as int)),
        decreases list@.len() - i,
    {
        broadcast use vstd::std_specs::hash::group_hash_axioms;

        assert(list@.take(i as int + 1).drop_last() =~= list@.take(i as int));
        let c = list[i];
        if c.ref_start < c.ref_end {
            let k: i64 = region(&c);
            let replace: bool = match map.get(&k) {
                None => true,
                Some(prev) => priority(c.source) > priority(prev.source),
            };
            if replace {
                map.insert(k, c);
            }
        }
        i = i + 1;
    }
    assert(list@.take(list@.len() as int) =~= list@);
    let walk = fx::walk(&map);
    let ghost want = stretches_in(list@, walk@);
    let mut out: Vec<CandidateWindow<S>> = Vec::new();
    let mut j: usize = 0;
    while j < walk.len()
        invariant
            j <= walk@.len(),
            vstd::std_specs::hash::builds_valid_hashers::<FxBuildHasher>(),
            map@ == best_by_region(list@),
            walk@.to_set() == map@.dom(),
            want == stretches_in(list@, walk@),
            out@ == want.take(j as int),
        decreases walk@.len() - j,
    {
        broadcast use vstd::std_specs::hash::group_hash_axioms;

        let k: i64 = walk[j];
        assert(walk@.contains(k));
        assert(walk@.to_set().contains(k));
        match map.get(&k) {
            Some(c) => {
                out.push(*c);
            },
            None => {
                assert(false);
            },
        }
        assert(out@ =~= want.take(j as int + 1));
        j = j + 1;
    }
    assert(out@ =~= want);
    out
}

// ---------------------------------------------------------------------------
// Both searches together

/// All proposed stretches, those around passages first.
pub open spec fn proposals<S: Scalar>(
    a: AlignmentAssetsV2<S>,
    obs: Seq<u32>,
    query: Seq<char>,
    limits: SearchLimits,
    word_walk: Seq<u32>,
    offset_walk: Seq<i32>,
) -> Seq<CandidateWindow<S>> {
    passage_windows(a, obs.len() as int, query, limits) + anchor_windows(a, obs, limits, word_walk, offset_walk)
}

/// `r` lists the candidates, up to the order in which three maps are walked.
pub open spec fn is_candidates<S: Scalar>(
    a: AlignmentAssetsV2<S>,
    obs: Seq<u32>,
    query: Seq<char>,
    limits: SearchLimits,
    r: Seq<CandidateWindow<S>>,
) -> bool {
    exists|word_walk: Seq<u32>, offset_walk: Seq<i32>, region_walk: Seq<i64>|
        {
            &&& fx::is_walk(word_walk, known_words(obs))
            &&& fx::is_walk(offset_walk, offset_sums(a, obs, limits, word_walk).dom())
            &&& fx::is_walk(
                region_walk,
                best_by_region(proposals(a, obs, query, limits, word_walk, offset_walk)).dom(),
            )
            &&& r == #[trigger] stretches_in(proposals(a, obs, query, limits, word_walk, offset_walk), region_walk)
        }
}

/// Every stretch begins within reach and, unless it is empty, ends within the
/// reference.
pub open spec fn within<S>(list: Seq<CandidateWindow<S>>, total: int) -> bool {
    forall|k: int|
        0 <= k < list.len() ==> {
            let c = #[trigger] list[k];
            &&& c.ref_start <= i32::MAX
            &&& c.ref_start <= c.ref_end
            &&& c.ref_start == c.ref_end || c.ref_end <= total
        }
}

proof fn lemma_proposals_within<S: Scalar>(
    a: AlignmentAssetsV2<S>,
    obs: Seq<u32>,
    query: Seq<char>,
    limits: SearchLimits,
    word_walk: Seq<u32>,
    offset_walk: Seq<i32>,
)
    requires
        a.wf(),
        limits.fits(),
        obs.len() < i32::MAX,
    ensures
        within(
            proposals(a, obs, query, limits, word_walk, offset_walk),
            a.ref_token_ids.items().len() as int,
        ),
{
    let p = passage_windows(a, obs.len() as int, query, limits);
    let q = anchor_windows(a, obs, limits, word_walk, offset_walk);
    let hashes = a.passages_simhash64.items();
    lemma_order_indexes(hashes, text::simhash_of(query));
    assert forall|k: int| 0 <= k < (p + q).len() implies {
        let c = #[trigger] (p + q)[k];
        &&& c.ref_start <= i32::MAX
        &&& c.ref_start <= c.ref_end
        &&& c.ref_start == c.ref_end || c.ref_end <= a.ref_token_ids.items().len()
    } by {
        if k < p.len() {
            let order = sorting::sorted(distances(hashes, text::simhash_of(query)));
            let near = order[k];
            assert(near.index < hashes.len());
            let ps = a.passages_start_ayah_global.items()[near.index as int];
            assert(ps < a.ayah_token_start.items().len());
            let first = max_int(ps - limits.window_margin_ayahs, 1);
            let last = min_int(
                a.passages_end_ayah_global.items()[near.index as int] + limits.window_margin_ayahs,
                assets::verse_count(a.ayah_token_start.items()) as int,
            );
            assert(a.ayah_token_start.items()[first] <= i32::MAX);
            assert(a.ayah_token_end.items()[last] <= i32::MAX);
            assert((p + q)[k] == passage_window(a, obs.len() as int, near, k, limits));
        } else {
            assert((p + q)[k] == q[k - p.len()]);
        }
    }
}

proof fn lemma_best_by_region<S>(list: Seq<CandidateWindow<S>>, k: i64)
    requires
        best_by_region(list).dom().contains(k),
    ensures
        list.contains(best_by_region(list)[k]),
        best_by_region(list)[k].ref_start < best_by_region(list)[k].ref_end,
        region_of(best_by_region(list)[k]) == k,
    decreases list.len(),
{
    if list.len() > 0 {
        let p = list.drop_last();
        let c = list.last();
        if best_by_region(list) == best_by_region(p) || k != region_of(c) {
            lemma_best_by_region(p, k);
            let j = choose|j: int| 0 <= j < p.len() && p[j] == best_by_region(p)[k];
            assert(list[j] == best_by_region(list)[k]);
        } else {
            assert(list[list.len() - 1] == c);
        }
    }
}

/// Every candidate is a stretch of the reference that holds at least one word.
pub proof fn law_candidates_lie_in_the_reference<S: Scalar>(
    a: AlignmentAssetsV2<S>,
    obs: Seq<u32>,
    query: Seq<char>,
    limits: SearchLimits,
    r: Seq<CandidateWindow<S>>,
)
    requires
        a.wf(),
        limits.fits(),
        obs.len() < i32::MAX,
        is_candidates(a, obs, query, limits, r),
    ensures
        forall|k: int|
            0 <= k < r.len() ==> (#[trigger] r[k]).ref_start < r[k].ref_end <= a.ref_token_ids.items().len(),
{
    let (word_walk, offset_walk, region_walk) = choose|
        word_walk: Seq<u32>,
        offset_walk: Seq<i32>,
        region_walk: Seq<i64>,
    |
        {
            &&& fx::is_walk(word_walk, known_words(obs))
            &&& fx::is_walk(offset_walk, offset_sums(a, obs, limits, word_walk).dom())
            &&& fx::is_walk(
                region_walk,
                best_by_region(proposals(a, obs, query, limits, word_walk, offset_walk)).dom(),
            )
            &&& r == #[trigger] stretches_in(proposals(a, obs, query, limits, word_walk, offset_walk), region_walk)
        };
    let list = proposals(a, obs, query, limits, word_walk, offset_walk);
    lemma_proposals_within(a, obs, query, limits, word_walk, offset_walk);
    assert forall|k: int| 0 <= k < r.len() implies (#[trigger] r[k]).ref_start < r[k].ref_end
        <= a.ref_token_ids.items().len() by {
        let key = region_walk[k];
        assert(region_walk.contains(key));
        assert(region_walk.to_set().contains(key));
        lemma_best_by_region(list, key);
        let j = choose|j: int| 0 <= j < list.len() && list[j] == r[k];
        assert(list[j].ref_start <= i32::MAX);
    }
}

/// No two candidates lie in the same region.
pub proof fn law_one_candidate_per_region<S: Scalar>(
    a: AlignmentAssetsV2<S>,
    obs: Seq<u32>,
    query: Seq<char>,
    limits: SearchLimits,
    r: Seq<CandidateWindow<S>>,
)
    requires
        is_candidates(a, obs, query, limits, r),
    ensures
        forall|j: int, k: int|
            0 <= j < k < r.len() ==> region_of(#[trigger] r[j]) != region_of(#[trigger] r[k]),
{
    let (word_walk, offset_walk, region_walk) = choose|
        word_walk: Seq<u32>,
        offset_walk: Seq<i32>,
        region_walk: Seq<i64>,
    |
        {
            &&& fx::is_walk(word_walk, known_words(obs))
            &&& fx::is_walk(offset_walk, offset_sums(a, obs, limits, word_walk).dom())
            &&& fx::is_walk(
                region_walk,
                best_by_region(proposals(a, obs, query, limits, word_walk, offset_walk)).dom(),
            )
            &&& r == #[trigger] stretches_in(proposals(a, obs, query, limits, word_walk, offset_walk), region_walk)
        };
    let list = proposals(a, obs, query, limits, word_walk, offset_walk);
    assert forall|j: int, k: int| 0 <= j < k < r.len() implies region_of(#[trigger] r[j]) != region_of(
        #[trigger] r[k],
    ) by {
        assert(region_walk.contains(region_walk[j]));
        assert(region_walk.contains(region_walk[k]));
        assert(region_walk.to_set().contains(region_walk[j]));
        assert(region_walk.to_set().contains(region_walk[k]));
        lemma_best_by_region(list, region_walk[j]);
        lemma_best_by_region(list, region_walk[k]);
    }
}

/// Proposes stretches of the reference in which the heard words may lie.
pub fn generate_candidates<S: Scalar>(
    a: &AlignmentAssetsV2<S>,
    obs_ids: &[u32],
    query_text: &str,
    limits: SearchLimits,
) -> (r: Vec<CandidateWindow<S>>)
    requires
        a.wf(),
        limits.fits(),
        obs_ids@.len() < i32::MAX,
    ensures
        is_candidates(*a, obs_ids@, query_text@, limits, r@),
{
    let mut list = propose_passages(a, obs_ids.len(), query_text, limits);
    let anchors = propose_anchors(a, obs_ids, limits);
    let ghost (word_walk, offset_walk) = choose|word_walk: Seq<u32>, offset_walk: Seq<i32>|
        {
            &&& fx::is_walk(word_walk, known_words(obs_ids@))
            &&& fx::is_walk(offset_walk, offset_sums(*a, obs_ids@, limits, word_walk).dom())
            &&& anchors@ == #[trigger] anchor_windows(*a, obs_ids@, limits, word_walk, offset_walk)
        };
    let ghost first = list@;
    let mut i: usize = 0;
    while i < anchors.len()
        invariant
            i <= anchors@.len(),
            list@ == first + anchors@.take(i as int),
        decreases anchors@.len() - i,
    {
        list.push(anchors[i]);
        assert(list@ =~= first + anchors@.take(i as int + 1));
        i = i + 1;
    }
    assert(list@ =~= proposals(*a, obs_ids@, query_text@, limits, word_walk, offset_walk));
    proof {
        lemma_proposals_within(*a, obs_ids@, query_text@, limits, word_walk, offset_walk);
    }
    keep_best_by_region(&list)
}

// ---------------------------------------------------------------------------
// Laws on what is proposed

/// The passages nearest to the query are proposed, nearest first, as many as are wanted:
/// none that is left out differs in fewer bits than one that is proposed.
pub proof fn law_nearest_passages_are_proposed<S: Scalar>(
    a: AlignmentAssetsV2<S>,
    m: int,
    query: Seq<char>,
    limits: SearchLimits,
    r: int,
)
    requires
        query.len() > 0,
        0 < a.passages_simhash64.items().len() <= usize::MAX,
        0 <= r < passage_windows(a, m, query, limits).len(),
    ensures
        ({
            let hashes = a.passages_simhash64.items();
            let got = passage_windows(a, m, query, limits);
            let order = sorting::sorted(distances(hashes, text::simhash_of(query)));
            &&& got.len() == (if limits.top_simhash < hashes.len() {
                limits.top_simhash as int
            } else {
                hashes.len() as int
            })
            &&& got[r].source == Source::Simhash
            &&& got[r].hint == Some((order[r].dist, r as usize))
            &&& order.to_multiset() == distances(hashes, text::simhash_of(query)).to_multiset()
            &&& forall|q: int| r < q < order.len() ==> order[r].dist <= (#[trigger] order[q]).dist
        }),
{
    let hashes = a.passages_simhash64.items();
    let d = distances(hashes, text::simhash_of(query));
    sorting::lemma_sorted_len(d);
    sorting::law_sorted_is_in_order(d);
    let order = sorting::sorted(d);
    assert forall|q: int| r < q < order.len() implies order[r].dist <= (#[trigger] order[q]).dist by {
        assert(!sorting::key_before(order[q].key(), order[r].key()));
    }
}

/// The window of a passage lies around the middle of its verses, with some verses more on
/// each side: it reaches as far as the heard words do from there, and the margin further,
/// within the reference.
pub proof fn law_passage_windows_lie_around_the_passage<S: Scalar>(
    a: AlignmentAssetsV2<S>,
    m: int,
    near: Near,
    rank: int,
    limits: SearchLimits,
)
    requires
        0 <= m <= i32::MAX,
        limits.fits(),
        ({
            let first = a.passages_start_ayah_global.items()[near.index as int] - limits.window_margin_ayahs;
            let last = a.passages_end_ayah_global.items()[near.index as int] + limits.window_margin_ayahs;
            1 <= first && last <= assets::verse_count(a.ayah_token_start.items())
        }),
        a.ref_token_ids.items().len() <= i32::MAX,
    ensures
        ({
            let first = a.passages_start_ayah_global.items()[near.index as int] - limits.window_margin_ayahs;
            let last = a.passages_end_ayah_global.items()[near.index as int] + limits.window_margin_ayahs;
            let from = a.ayah_token_start.items()[first] as int;
            let to = a.ayah_token_end.items()[last] as int;
            let total = a.ref_token_ids.items().len() as int;
            let w = passage_window(a, m, near, rank, limits);
            let margin = limits.window_margin_tokens as int;
            &&& from + to <= 2 * total ==> {
                &&& -1 <= 2 * w.expected_offset + m - (from + to) <= 1
                &&& w.ref_start == max_int(w.expected_offset - margin, 0)
                &&& w.ref_end == max_int(min_int(w.expected_offset + m + margin, total), w.ref_start as int)
            }
        }),
{
}

/// Telling words are known, no stop words and of positive weight; the weightier ones are
/// asked first.
pub proof fn law_telling_words_have_weight<S: Scalar>(a: AlignmentAssetsV2<S>, walk: Seq<u32>)
    ensures
        forall|i: int|
            0 <= i < telling_words(a, walk).len() ==> {
                let w = #[trigger] telling_words(a, walk)[i];
                &&& walk.contains(w.id)
                &&& !is_stop(a, w.id) && w.id < a.stop_mask@.len()
                &&& w.weight == idf_of(a, w.id) && S::whole_spec(0).rank() < w.weight.rank()
            },
        forall|i: int|
            0 <= i < walk.len() && !is_stop(a, #[trigger] walk[i]) && walk[i] < a.stop_mask@.len() && S::whole_spec(
                0,
            ).rank() < idf_of(a, walk[i]).rank() ==> telling_words(a, walk).contains(
                Weighed { weight: idf_of(a, walk[i]), id: walk[i] },
            ),
        forall|i: int, j: int|
            0 <= i < j < telling_words(a, walk).len() ==> (#[trigger] sorting::sorted(
                telling_words(a, walk),
            )[j]).weight.rank() <= (#[trigger] sorting::sorted(telling_words(a, walk))[i]).weight.rank(),
    decreases walk.len(),
{
    let all = telling_words(a, walk);
    if walk.len() > 0 {
        let d = walk.drop_last();
        let before = telling_words(a, d);
        law_telling_words_have_weight(a, d);
        assert forall|i: int| 0 <= i < all.len() implies {
            let w = #[trigger] all[i];
            &&& walk.contains(w.id)
            &&& !is_stop(a, w.id) && w.id < a.stop_mask@.len()
            &&& w.weight == idf_of(a, w.id) && S::whole_spec(0).rank() < w.weight.rank()
        } by {
            if i < before.len() {
                assert(all[i] == before[i]);
                assert(d.contains(before[i].id));
                let k = choose|k: int| 0 <= k < d.len() && d[k] == before[i].id;
                assert(walk[k] == before[i].id);
            } else {
                assert(walk[walk.len() - 1] == all[i].id);
            }
        }
        assert forall|i: int|
            0 <= i < walk.len() && !is_stop(a, #[trigger] walk[i]) && walk[i] < a.stop_mask@.len() && S::whole_spec(
                0,
            ).rank() < idf_of(a, walk[i]).rank() implies all.contains(
            Weighed { weight: idf_of(a, walk[i]), id: walk[i] },
        ) by {
            let w = Weighed { weight: idf_of(a, walk[i]), id: walk[i] };
            if i < d.len() {
                assert(d[i] == walk[i]);
                assert(before.contains(w));
                let k = choose|k: int| 0 <= k < before.len() && before[k] == w;
                assert(all[k] == w);
            } else {
                assert(all[all.len() - 1] == w);
            }
        }
    }
    sorting::lemma_sorted_len(all);
    sorting::law_sorted_is_in_order(all);
    let order = sorting::sorted(all);
    assert forall|i: int, j: int| 0 <= i < j < all.len() implies (#[trigger] order[j]).weight.rank() <= (
    #[trigger] order[i]).weight.rank() by {
        assert(!sorting::key_before(order[j].key(), order[i].key()));
    }
}

/// A word that was heard once or twice votes from each place; one heard more often from
/// the first, the middle and the last.
pub proof fn law_words_vote_from_three_places(pos: Seq<usize>)
    ensures
        pos.len() <= 2 ==> voting_places(pos) == pos,
        pos.len() > 2 ==> voting_places(pos).len() == 3 && voting_places(pos)[0] == pos[0] && voting_places(pos)[1]
            == pos[pos.len() as int / 2] && voting_places(pos)[2] == pos[pos.len() - 1],
{
}

/// Where a word stands up to two thousand times in the reference, each place is looked
/// at; of more, places evenly apart, two thousand or more of them.
pub proof fn law_common_words_are_sampled(n: int)
    requires
        0 < n,
    ensures
        n <= 2000 ==> stride(n) == 1 && looked_at(n) == n,
        n > 2000 ==> {
            &&& 2000 * stride(n) <= n < 2000 * stride(n) + 2000
            &&& (looked_at(n) - 1) * stride(n) < n <= looked_at(n) * stride(n)
            &&& looked_at(n) >= 2000
        },
{
    if n > 2000 {
        let s = stride(n);
        let k = (n + s - 1) / s;
        assert(s >= 1);
        assert((k - 1) * s < n <= k * s) by (nonlinear_arith)
            requires
                k == (n + s - 1) / s,
                s >= 1,
                n > 0,
        ;
        assert(k >= 2000) by (nonlinear_arith)
            requires
                n <= k * s,
                2000 * s <= n,
                s >= 1,
        ;
    }
}

/// Each place of a word in the reference votes for where the recitation would begin if
/// the heard word were that one, with the weight of the word.
pub proof fn law_votes_name_the_offset<S: Scalar>(a: AlignmentAssetsV2<S>, id: u32, place: usize, k: nat, i: int)
    requires
        listing(a, id) is Some,
        0 <= i < k,
    ensures
        ({
            let l = listing(a, id)->0;
            let votes = place_votes(a, id, place, k);
            &&& votes.len() == k
            &&& votes[i].off == (a.inv_positions.items()[l.0 + i * stride(l.1 - l.0)] - place) as i32
            &&& votes[i].weight == idf_of(a, id)
        }),
    decreases k,
{
    lemma_votes_len(a, id, place, k);
    if i < k - 1 {
        law_votes_name_the_offset(a, id, place, (k - 1) as nat, i);
        lemma_votes_len(a, id, place, (k - 1) as nat);
    } else {
        lemma_votes_len(a, id, place, (k - 1) as nat);
    }
}

proof fn lemma_votes_len<S: Scalar>(a: AlignmentAssetsV2<S>, id: u32, place: usize, k: nat)
    ensures
        place_votes(a, id, place, k).len() == k,
    decreases k,
{
    if k > 0 {
        lemma_votes_len(a, id, place, (k - 1) as nat);
    }
}

/// A vote adds its weight to its offset and changes no other.
pub proof fn law_votes_add_up<S: Scalar>(votes: Seq<Vote<S>>, v: Vote<S>, o: i32)
    ensures
        ({
            let before = tally(votes);
            let after = tally(votes.push(v));
            &&& after.dom().contains(o) <==> before.dom().contains(o) || o == v.off
            &&& o != v.off && before.dom().contains(o) ==> after[o] == before[o]
            &&& before.dom().contains(v.off) ==> after[v.off] == before[v.off].plus_spec(v.weight)
            &&& !before.dom().contains(v.off) ==> after[v.off] == S::whole_spec(0).plus_spec(v.weight)
        }),
{
    assert(votes.push(v).drop_last() =~= votes);
}

/// The chosen offsets lie at least 25 words apart and are no more than wanted, at least
/// one. The first peak is chosen, and each other unless it lies nearer than 25 words to a
/// chosen one or as many as wanted are chosen.
pub proof fn law_chosen_offsets_lie_apart<S>(peaks: Seq<Peak<S>>, top: int, k: nat)
    requires
        k <= peaks.len(),
    ensures
        ({
            let r = chosen_offsets(peaks, top, k);
            &&& k > 0 ==> r.len() > 0 && r[0] == peaks[0].off
            &&& r.len() <= 1 || r.len() <= top
            &&& forall|i: int, j: int|
                0 <= i < j < r.len() ==> #[trigger] r[i] - #[trigger] r[j] >= 25 || r[j] - r[i] >= 25
            &&& forall|i: int|
                0 <= i < k ==> (r.len() >= top && r.len() > 0) || exists|c: int|
                    0 <= c < r.len() && -25 < (#[trigger] peaks[i]).off - #[trigger] r[c] < 25
        }),
    decreases k,
{
    let r = chosen_offsets(peaks, top, k);
    if k > 0 {
        law_chosen_offsets_lie_apart(peaks, top, (k - 1) as nat);
        let before = chosen_offsets(peaks, top, (k - 1) as nat);
        let off = peaks[k - 1].off;
        assert forall|i: int, j: int| 0 <= i < j < r.len() implies #[trigger] r[i] - #[trigger] r[j] >= 25 || r[j]
            - r[i] >= 25 by {
            if j == before.len() {
                assert(r[i] == before[i]);
                assert(!(abs_int(off - before[i]) < 25));
            } else {
                assert(r[i] == before[i] && r[j] == before[j]);
            }
        }
        assert forall|i: int| 0 <= i < k implies (r.len() >= top && r.len() > 0) || exists|c: int|
            0 <= c < r.len() && -25 < (#[trigger] peaks[i]).off - #[trigger] r[c] < 25 by {
            if i == k - 1 {
                if is_crowded(before, off) {
                    let c = choose|c: int| 0 <= c < before.len() && abs_int(off - #[trigger] before[c]) < 25;
                    assert(r[c] == before[c]);
                } else if r.len() > before.len() {
                    assert(r[r.len() - 1] == off);
                }
            } else if !(before.len() >= top && before.len() > 0) {
                let c = choose|c: int|
                    0 <= c < before.len() && -25 < (#[trigger] peaks[i]).off - #[trigger] before[c] < 25;
                assert(r[c] == before[c]);
            }
        }
    }
}

/// Offsets with more votes come first, and of two with as many the one nearer to the
/// front.
pub proof fn law_higher_peaks_come_first<S: Scalar>(peaks: Seq<Peak<S>>, i: int, j: int)
    requires
        0 <= i < j < peaks.len(),
    ensures
        ({
            let order = sorting::sorted(peaks);
            &&& order.len() == peaks.len()
            &&& order[j].score.rank() <= order[i].score.rank()
            &&& order[j].score.rank() == order[i].score.rank() ==> abs_int(order[i].off as int) <= abs_int(
                order[j].off as int,
            )
        }),
{
    sorting::lemma_sorted_len(peaks);
    sorting::law_sorted_is_in_order(peaks);
    let order = sorting::sorted(peaks);
    assert(!sorting::key_before(order[j].key(), order[i].key()));
}

/// The window of an offset reaches from the margin in front of it to the margin behind
/// the heard words, within the reference.
pub proof fn law_anchor_windows_lie_around_the_offset<S: Scalar>(
    total: int,
    m: int,
    off: i32,
    limits: SearchLimits,
    r: int,
)
    requires
        0 <= r < total <= i32::MAX,
        0 <= m <= i32::MAX,
        limits.fits(),
    ensures
        ({
            let w = anchor_window::<S>(total, m, off, limits);
            let margin = limits.window_margin_tokens as int;
            &&& w.expected_offset == off && w.source == Source::Anchor
            &&& w.ref_start <= w.ref_end
            &&& w.ref_start <= r < w.ref_end <==> off - margin <= r < off + m + margin
        }),
{
}

/// In each region the candidate of the best kind is kept, the first of its kind: one
/// from anchors rather than one from passages.
pub proof fn law_anchors_win_their_region<S>(list: Seq<CandidateWindow<S>>, i: int)
    requires
        0 <= i < list.len(),
        list[i].ref_start < list[i].ref_end,
    ensures
        ({
            let kept = best_by_region(list);
            let k = region_of(list[i]);
            &&& kept.dom().contains(k)
            &&& list.contains(kept[k]) && region_of(kept[k]) == k
            &&& list[i].source == Source::Anchor ==> kept[k].source == Source::Anchor
            &&& list[i].source == Source::Embed ==> kept[k].source != Source::Simhash
        }),
    decreases list.len(),
{
    let d = list.drop_last();
    let c = list.last();
    let k = region_of(list[i]);
    let kept = best_by_region(list);
    let before = best_by_region(d);
    assert(list[list.len() - 1] == c);
    lemma_kept_in_region(list, k);
    lemma_kept_in_region(d, k);
    if i < list.len() - 1 {
        assert(d[i] == list[i]);
        law_anchors_win_their_region(d, i);
    }
}

proof fn lemma_kept_in_region<S>(list: Seq<CandidateWindow<S>>, k: i64)
    ensures
        best_by_region(list).dom().contains(k) ==> list.contains(best_by_region(list)[k]) && region_of(
            best_by_region(list)[k],
        ) == k,
    decreases list.len(),
{
    if list.len() > 0 {
        let d = list.drop_last();
        lemma_kept_in_region(d, k);
        assert(list[list.len() - 1] == list.last());
        if best_by_region(d).dom().contains(k) {
            let w = choose|w: int| 0 <= w < d.len() && d[w] == best_by_region(d)[k];
            assert(list[w] == d[w]);
        }
    }
}

/// The places of a word are those at which it was heard, in their order.
pub proof fn law_places_are_where_the_word_was_heard(obs: Seq<u32>, id: u32)
    requires
        obs.len() <= usize::MAX,
    ensures
        forall|p: int| 0 <= p < obs.len() ==> (positions(obs, id).contains(p as usize) <==> #[trigger] obs[p] == id),
        forall|i: int| 0 <= i < positions(obs, id).len() ==> (#[trigger] positions(obs, id)[i]) < obs.len(),
        forall|i: int, j: int|
            0 <= i < j < positions(obs, id).len() ==> (#[trigger] positions(obs, id)[i]) < (#[trigger] positions(obs, id)[j]),
    decreases obs.len(),
{
    if obs.len() > 0 {
        let d = obs.drop_last();
        law_places_are_where_the_word_was_heard(d, id);
        let before = positions(d, id);
        let all = positions(obs, id);
        let last = (obs.len() - 1) as usize;
        assert forall|p: int| 0 <= p < obs.len() implies (all.contains(p as usize) <==> #[trigger] obs[p] == id) by {
            if p < d.len() {
                assert(d[p] == obs[p]);
                if before.contains(p as usize) {
                    let i = choose|i: int| 0 <= i < before.len() && before[i] == p as usize;
                    assert(all[i] == p as usize);
                }
                if all.contains(p as usize) {
                    let i = choose|i: int| 0 <= i < all.len() && all[i] == p as usize;
                    if i < before.len() {
                        assert(before[i] == p as usize);
                    }
                }
            } else {
                if obs[p] == id {
                    assert(all[all.len() - 1] == last);
                } else if all.contains(p as usize) {
                    let i = choose|i: int| 0 <= i < all.len() && all[i] == p as usize;
                    assert(before[i] < d.len());
                }
            }
        }
    }
}

/// Each telling word votes from each of its voting places, with as many votes as are
/// looked at of where the text has it; a word that the text does not have does not vote.
pub proof fn law_each_telling_word_votes<S: Scalar>(
    a: AlignmentAssetsV2<S>,
    obs: Seq<u32>,
    ranked: Seq<Weighed<S>>,
    k: nat,
)
    requires
        k < ranked.len(),
    ensures
        ({
            let id = ranked[k as int].id;
            let places = voting_places(positions(obs, id));
            let before = ballots(a, obs, ranked, k);
            let after = ballots(a, obs, ranked, k + 1);
            &&& ballots(a, obs, ranked, 0).len() == 0
            &&& listing(a, id) is None ==> after == before
            &&& listing(a, id) is Some ==> {
                &&& after.take(before.len() as int) == before
                &&& after.skip(before.len() as int) == word_votes(a, id, places, places.len())
            }
        }),
{
    let id = ranked[k as int].id;
    let places = voting_places(positions(obs, id));
    let before = ballots(a, obs, ranked, k);
    let own = word_votes(a, id, places, places.len());
    assert((before + own).take(before.len() as int) =~= before);
    assert((before + own).skip(before.len() as int) =~= own);
}

/// The votes of a word are those of its places, one place after the other.
pub proof fn law_each_place_votes<S: Scalar>(a: AlignmentAssetsV2<S>, id: u32, places: Seq<usize>, k: nat)
    requires
        k < places.len(),
    ensures
        ({
            let before = word_votes(a, id, places, k);
            let after = word_votes(a, id, places, k + 1);
            &&& word_votes(a, id, places, 0).len() == 0
            &&& after.take(before.len() as int) == before
            &&& after.skip(before.len() as int) == place_votes(
                a,
                id,
                places[k as int],
                looked_at(listed_count(a, id)),
            )
        }),
{
    let before = word_votes(a, id, places, k);
    let own = place_votes(a, id, places[k as int], looked_at(listed_count(a, id)));
    assert((before + own).take(before.len() as int) =~= before);
    assert((before + own).skip(before.len() as int) =~= own);
}

} // verus!
