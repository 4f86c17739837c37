//! Which candidates are worth an alignment, and how far a result is trusted.

use std::collections::HashSet;

use rayon::iter::IntoParallelIterator;
use rayon::iter::ParallelIterator;
use vstd::prelude::*;

use crate::assets::AlignmentAssetsV2;
use crate::candidates;
use crate::candidates::{CandidateWindow, Weighed};
use crate::dp;
use crate::dp::{Alignment, AlignmentResultV2, Source};
use crate::scalar;
use crate::scalar::Scalar;
use crate::sorting;
use crate::sorting::Keyed;

verus! {

// ---------------------------------------------------------------------------
// Quick scores

/// The heard words of the vocabulary without stop words, each once, in the order
/// in which they are first heard, with their weights.
pub open spec fn distinct_words<S: Scalar>(a: AlignmentAssetsV2<S>, obs: Seq<u32>) -> Seq<Weighed<S>>
    decreases obs.len(),
{
    if obs.len() == 0 {
        Seq::empty()
    } else {
        let p = obs.drop_last();
        let id = obs.last();
        if id == 0 || p.contains(id) || candidates::is_stop(a, id) {
            distinct_words(a, p)
        } else {
            distinct_words(a, p).push(Weighed { weight: candidates::idf_of(a, id), id })
        }
    }
}

/// The heaviest of the heard words, at most 64.
pub open spec fn top_words<S: Scalar>(a: AlignmentAssetsV2<S>, obs: Seq<u32>) -> Seq<Weighed<S>> {
    let order = sorting::sorted(distinct_words(a, obs));
    if order.len() <= 64 {
        order
    } else {
        order.take(64)
    }
}

/// The sum of weights, in order.
pub open spec fn weight_sum<S: Scalar>(words: Seq<Weighed<S>>) -> S
    decreases words.len(),
{
    if words.len() == 0 {
        S::whole_spec(0)
    } else {
        weight_sum(words.drop_last()).plus_spec(words.last().weight)
    }
}

/// What scores are divided by: the sum of weights, or one where it is not
/// positive.
pub open spec fn score_base<S: Scalar>(words: Seq<Weighed<S>>) -> S {
    let sum = weight_sum(words);
    if sum.rank() <= S::whole_spec(0).rank() {
        S::whole_spec(1)
    } else {
        sum
    }
}

/// One of the words has the number `id`.
pub open spec fn lists<S>(words: Seq<Weighed<S>>, id: u32) -> bool {
    exists|k: int| 0 <= k < words.len() && (#[trigger] words[k]).id == id
}

/// The sum of the weights of those of `words` that occur in a stretch, in the
/// order of their first occurrence.
pub open spec fn found_weight<S: Scalar>(a: AlignmentAssetsV2<S>, words: Seq<Weighed<S>>, refs: Seq<u32>) -> S
    decreases refs.len(),
{
    if refs.len() == 0 {
        S::whole_spec(0)
    } else {
        let p = refs.drop_last();
        let id = refs.last();
        if id == 0 || !lists(words, id) || p.contains(id) {
            found_weight(a, words, p)
        } else {
            found_weight(a, words, p).plus_spec(candidates::idf_of(a, id))
        }
    }
}

/// The words of a stretch.
pub open spec fn stretch<S: Scalar>(a: AlignmentAssetsV2<S>, c: CandidateWindow<S>) -> Seq<u32> {
    a.ref_token_ids.items().subrange(c.ref_start as int, c.ref_end as int)
}

/// A candidate with its score: the share of the weight of `words` that is found
/// in it.
pub open spec fn scored<S: Scalar>(
    a: AlignmentAssetsV2<S>,
    words: Seq<Weighed<S>>,
    c: CandidateWindow<S>,
) -> CandidateWindow<S> {
    CandidateWindow { quick_score: found_weight(a, words, stretch(a, c)).over_spec(score_base(words)), ..c }
}

/// The candidate lies in the reference.
pub open spec fn lies_in<S: Scalar>(a: AlignmentAssetsV2<S>, c: CandidateWindow<S>) -> bool {
    c.ref_start < c.ref_end <= a.ref_token_ids.items().len()
}

pub open spec fn all_lie_in<S: Scalar>(a: AlignmentAssetsV2<S>, list: Seq<CandidateWindow<S>>) -> bool {
    forall|k: int| 0 <= k < list.len() ==> lies_in(a, #[trigger] list[k])
}

pub fn find_distinct_words<S: Scalar>(a: &AlignmentAssetsV2<S>, obs: &[u32]) -> (r: Vec<Weighed<S>>)
    ensures
        r@ == distinct_words(*a, obs@),
{
    broadcast use vstd::std_specs::hash::group_hash_axioms;

    let mut seen: HashSet<u32> = HashSet::new();
    let mut list: Vec<Weighed<S>> = Vec::new();
    let mut i: usize = 0;
    while i < obs.len()
        invariant
            i <= obs@.len(),
            forall|id: u32| #[trigger] seen@.contains(id) <==> id != 0 && obs@.take(i as int).contains(id),
            list@ == distinct_words(*a, obs@.take(i as int)),
        decreases obs@.len() - i,
    {
        broadcast use vstd::std_specs::hash::group_hash_axioms;

        let ghost p = obs@.take(i as int);
        let ghost q = obs@.take(i as int + 1);
        let id: u32 = obs[i];
        proof {
            assert(q.drop_last() =~= p);
            assert(q =~= p.push(id));
            assert forall|x: u32| q.contains(x) == (p.contains(x) || x == id) by {
                lemma_push_contains(p, id, x);
            }
        }
        if id != 0 && !seen.contains(&id) {
            seen.insert(id);
            let stop: bool = (id as usize) < a.stop_mask.len() && a.stop_mask[id as usize];
            if !stop {
                list.push(Weighed { weight: candidates::idf_at(a, id), id });
            }
        }
        i = i + 1;
    }
    assert(obs@.take(obs@.len() as int) =~= obs@);
    list
}

pub fn find_top_words<S: Scalar>(a: &AlignmentAssetsV2<S>, obs: &[u32]) -> (r: Vec<Weighed<S>>)
    ensures
        r@ == top_words(*a, obs@),
{
    let list = find_distinct_words(a, obs);
    let mut order = sorting::sort(&list);
    if order.len() > 64 {
        order.truncate(64);
        assert(order@ =~= top_words(*a, obs@));
    }
    order
}

proof fn lemma_push_contains<T>(s: Seq<T>, x: T, y: T)
    ensures
        s.push(x).contains(y) == (s.contains(y) || y == x),
{
    if s.contains(y) {
        let k = choose|k: int| 0 <= k < s.len() && s[k] == y;
        assert(s.push(x)[k] == y);
    }
    if y == x {
        assert(s.push(x)[s.len() as int] == y);
    }
    if s.push(x).contains(y) {
        let k = choose|k: int| 0 <= k < s.push(x).len() && s.push(x)[k] == y;
        if k < s.len() {
            assert(s[k] == y);
        }
    }
}

fn base_of<S: Scalar>(words: &[Weighed<S>]) -> (r: S)
    ensures
        r == score_base(words@),
{
    let mut sum: S = S::whole(0);
    let mut i: usize = 0;
    while i < words.len()
        invariant
            i <= words@.len(),
            sum == weight_sum(words@.take(i as int)),
        decreases words@.len() - i,
    {
        assert(words@.take(i as int + 1).drop_last() =~= words@.take(i as int));
        sum = sum.plus(words[i].weight);
        i = i + 1;
    }
    assert(words@.take(words@.len() as int) =~= words@);
    if S::whole(0).below(sum) {
        sum
    } else {
        S::whole(1)
    }
}

fn id_set<S: Scalar>(words: &[Weighed<S>]) -> (r: HashSet<u32>)
    ensures
        forall|id: u32| #[trigger] r@.contains(id) <==> lists(words@, id),
{
    broadcast use vstd::std_specs::hash::group_hash_axioms;

    let mut set: HashSet<u32> = HashSet::new();
    let mut i: usize = 0;
    while i < words.len()
        invariant
            i <= words@.len(),
            forall|id: u32| #[trigger]
                set@.contains(id) <==> exists|k: int| 0 <= k < i && (#[trigger] words@[k]).id == id,
        decreases words@.len() - i,
    {
        broadcast use vstd::std_specs::hash::group_hash_axioms;

        let ghost before = set@;
        set.insert(words[i].id);
        proof {
            assert forall|id: u32| #[trigger]
                set@.contains(id) <==> exists|k: int| 0 <= k < i + 1 && (#[trigger] words@[k]).id == id by {
                if before.contains(id) {
                    let k = choose|k: int| 0 <= k < i && (#[trigger] words@[k]).id == id;
                    assert(0 <= k < i + 1 && words@[k].id == id);
                }
                if id == words@[i as int].id {
                    assert(0 <= i < i + 1 && words@[i as int].id == id);
                }
                if exists|k: int| 0 <= k < i + 1 && (#[trigger] words@[k]).id == id {
                    let k = choose|k: int| 0 <= k < i + 1 && (#[trigger] words@[k]).id == id;
                    if k < i {
                        assert(before.contains(id));
                    }
                }
            }
        }
        i = i + 1;
    }
    set
}

fn weigh_stretch<S: Scalar>(
    a: &AlignmentAssetsV2<S>,
    Ghost(words): Ghost<Seq<Weighed<S>>>,
    ids: &HashSet<u32>,
    from: usize,
    to: usize,
) -> (r: S)
    requires
        from <= to <= a.ref_token_ids.items().len(),
        forall|id: u32| #[trigger] ids@.contains(id) <==> lists(words, id),
    ensures
        r == found_weight(*a, words, a.ref_token_ids.items().subrange(from as int, to as int)),
{
    broadcast use vstd::std_specs::hash::group_hash_axioms;

    let refs = a.ref_token_ids.as_slice();
    let ghost all = a.ref_token_ids.items().subrange(from as int, to as int);
    let mut seen: HashSet<u32> = HashSet::new();
    let mut num: S = S::whole(0);
    let mut i: usize = from;
    while i < to
        invariant
            from <= i <= to <= refs@.len(),
            all == refs@.subrange(from as int, to as int),
            forall|id: u32| #[trigger] ids@.contains(id) <==> lists(words, id),
            forall|id: u32| #[trigger]
                seen@.contains(id) <==> id != 0 && lists(words, id) && all.take(i - from).contains(id),
            num == found_weight(*a, words, all.take(i - from)),
        decreases to - i,
    {
        broadcast use vstd::std_specs::hash::group_hash_axioms;

        let ghost p = all.take(i - from);
        let ghost q = all.take(i + 1 - from);
        let id: u32 = refs[i];
        proof {
            assert(q.drop_last() =~= p);
            assert(q =~= p.push(id));
            assert forall|x: u32| q.contains(x) == (p.contains(x) || x == id) by {
                lemma_push_contains(p, id, x);
            }
        }
        if id != 0 && ids.contains(&id) {
            let fresh: bool = seen.insert(id);
            if fresh {
                num = num.plus(candidates::idf_at(a, id));
            }
        }
        i = i + 1;
    }
    assert(all.take(to - from) =~= all);
    num
}

/// Scores every candidate.
pub fn score_candidates<S: Scalar>(
    a: &AlignmentAssetsV2<S>,
    words: &[Weighed<S>],
    list: &[CandidateWindow<S>],
) -> (r: Vec<CandidateWindow<S>>)
    requires
        all_lie_in(*a, list@),
    ensures
        r@ == list@.map_values(|c: CandidateWindow<S>| scored(*a, words@, c)),
{
    let base: S = base_of(words);
    let ids = id_set(words);
    let ghost want = list@.map_values(|c: CandidateWindow<S>| scored(*a, words@, c));
    let mut out: Vec<CandidateWindow<S>> = Vec::new();
    let mut i: usize = 0;
    while i < list.len()
        invariant
            i <= list@.len(),
            all_lie_in(*a, list@),
            base == score_base(words@),
            forall|id: u32| #[trigger] ids@.contains(id) <==> lists(words@, id),
            want == list@.map_values(|c: CandidateWindow<S>| scored(*a, words@, c)),
            out@ == want.take(i as int),
        decreases list@.len() - i,
    {
        let c = list[i];
        assert(lies_in(*a, list@[i as int]));
        let found: S = weigh_stretch(a, Ghost(words@), &ids, c.ref_start, c.ref_end);
        out.push(
            CandidateWindow {
                ref_start: c.ref_start,
                ref_end: c.ref_end,
                expected_offset: c.expected_offset,
                source: c.source,
                hint: c.hint,
                quick_score: found.over(base),
            },
        );
        assert(out@ =~= want.take(i as int + 1));
        i = i + 1;
    }
    assert(out@ =~= want);
    out
}

// ---------------------------------------------------------------------------
// Selection

/// Better scores come first, then shorter stretches.
impl<S: Scalar> Keyed for CandidateWindow<S> {
    open spec fn key(self) -> (int, int) {
        (-self.quick_score.rank(), self.ref_end - self.ref_start)
    }

    fn before(&self, other: &Self) -> (r: bool) {
        if other.quick_score.below(self.quick_score) {
            true
        } else if self.quick_score.below(other.quick_score) {
            false
        } else {
            (self.ref_end as i128 - self.ref_start as i128) < (other.ref_end as i128 - other.ref_start as i128)
        }
    }
}

/// How many candidates are aligned.
pub const MAX_KEEP: usize = 10;

/// The same stretch at the same offset.
pub open spec fn same_place<S>(c: CandidateWindow<S>, d: CandidateWindow<S>) -> bool {
    c.ref_start == d.ref_start && c.ref_end == d.ref_end && c.expected_offset == d.expected_offset
}

/// Adds a candidate, unless one at the same place is there.
pub open spec fn with_candidate<S>(selected: Seq<CandidateWindow<S>>, c: CandidateWindow<S>) -> Seq<
    CandidateWindow<S>,
> {
    if exists|k: int| 0 <= k < selected.len() && same_place(#[trigger] selected[k], c) {
        selected
    } else {
        selected.push(c)
    }
}

/// The first of `list` that comes from `source`.
pub open spec fn first_from<S>(list: Seq<CandidateWindow<S>>, source: Source) -> Option<CandidateWindow<S>>
    decreases list.len(),
{
    if list.len() == 0 {
        None
    } else if list[0].source == source {
        Some(list[0])
    } else {
        first_from(list.skip(1), source)
    }
}

/// Adds the first candidate from `source`, if there is one.
pub open spec fn with_first_from<S>(
    selected: Seq<CandidateWindow<S>>,
    list: Seq<CandidateWindow<S>>,
    source: Source,
) -> Seq<CandidateWindow<S>> {
    match first_from(list, source) {
        None => selected,
        Some(c) => with_candidate(selected, c),
    }
}

/// Adds the first `k` candidates of `list` in order, as long as there is room.
pub open spec fn filled_up<S>(
    selected: Seq<CandidateWindow<S>>,
    list: Seq<CandidateWindow<S>>,
    k: nat,
) -> Seq<CandidateWindow<S>>
    decreases k,
{
    if k == 0 {
        selected
    } else {
        let before = filled_up(selected, list, (k - 1) as nat);
        if before.len() >= MAX_KEEP {
            before
        } else {
            with_candidate(before, list[k - 1])
        }
    }
}

/// The candidates to align: the first from each source, then the others in
/// order, up to [`MAX_KEEP`].
pub open spec fn selection<S>(list: Seq<CandidateWindow<S>>) -> Seq<CandidateWindow<S>> {
    let one = with_first_from(Seq::empty(), list, Source::Anchor);
    let two = with_first_from(one, list, Source::Embed);
    let three = with_first_from(two, list, Source::Simhash);
    filled_up(three, list, list.len())
}

pub fn add_candidate<S: Scalar>(selected: &mut Vec<CandidateWindow<S>>, c: CandidateWindow<S>)
    ensures
        final(selected)@ == with_candidate(old(selected)@, c),
{
    let mut k: usize = 0;
    while k < selected.len()
        invariant
            selected@ == old(selected)@,
            k <= selected@.len(),
            forall|j: int| 0 <= j < k ==> !same_place(#[trigger] selected@[j], c),
        decreases selected@.len() - k,
    {
        let d = selected[k];
        if d.ref_start == c.ref_start && d.ref_end == c.ref_end && d.expected_offset == c.expected_offset {
            assert(same_place(selected@[k as int], c));
            return;
        }
        k = k + 1;
    }
    selected.push(c);
}

fn add_first_from<S: Scalar>(selected: &mut Vec<CandidateWindow<S>>, list: &[CandidateWindow<S>], source: Source)
    ensures
        final(selected)@ == with_first_from(old(selected)@, list@, source),
{
    let mut k: usize = 0;
    assert(list@.skip(0) =~= list@);
    while k < list.len()
        invariant
            selected@ == old(selected)@,
            k <= list@.len(),
            first_from(list@, source) == first_from(list@.skip(k as int), source),
        decreases list@.len() - k,
    {
        assert(list@.skip(k as int)[0] == list@[k as int]);
        if list[k].source == source {
            add_candidate(selected, list[k]);
            return;
        }
        assert(list@.skip(k as int).skip(1) =~= list@.skip(k as int + 1));
        k = k + 1;
    }
}

/// Selects the candidates to align from a list that is in order.
pub fn select_candidates<S: Scalar>(list: &[CandidateWindow<S>]) -> (r: Vec<CandidateWindow<S>>)
    ensures
        r@ == selection(list@),
{
    let mut selected: Vec<CandidateWindow<S>> = Vec::new();
    add_first_from(&mut selected, list, Source::Anchor);
    add_first_from(&mut selected, list, Source::Embed);
    add_first_from(&mut selected, list, Source::Simhash);
    let ghost three = selected@;
    let mut k: usize = 0;
    while k < list.len()
        invariant
            k <= list@.len(),
            selected@ == filled_up(three, list@, k as nat),
        decreases list@.len() - k,
    {
        if selected.len() < MAX_KEEP {
            add_candidate(&mut selected, list[k]);
        }
        k = k + 1;
    }
    selected
}

proof fn lemma_first_from<S>(list: Seq<CandidateWindow<S>>, source: Source)
    ensures
        first_from(list, source) matches Some(c) ==> list.contains(c) && c.source == source,
    decreases list.len(),
{
    if list.len() > 0 {
        if list[0].source == source {
            assert(list.contains(list[0]));
        } else {
            let t = list.skip(1);
            lemma_first_from(t, source);
            if let Some(c) = first_from(t, source) {
                let k = choose|k: int| 0 <= k < t.len() && t[k] == c;
                assert(list[k + 1] == c);
            }
        }
    }
}

/// `selected` has candidates of `list` alone, none at the place of another.
pub open spec fn is_selection_of<S>(selected: Seq<CandidateWindow<S>>, list: Seq<CandidateWindow<S>>) -> bool {
    &&& forall|k: int| 0 <= k < selected.len() ==> list.contains(#[trigger] selected[k])
    &&& forall|j: int, k: int|
        0 <= j < k < selected.len() ==> !same_place(#[trigger] selected[j], #[trigger] selected[k])
}

proof fn lemma_with_candidate<S>(
    selected: Seq<CandidateWindow<S>>,
    c: CandidateWindow<S>,
    list: Seq<CandidateWindow<S>>,
)
    requires
        is_selection_of(selected, list),
        list.contains(c),
    ensures
        is_selection_of(with_candidate(selected, c), list),
        with_candidate(selected, c).len() <= selected.len() + 1,
        with_candidate(selected, c).len() >= selected.len(),
        with_candidate(selected, c).len() > 0,
{
}

proof fn lemma_filled_up<S>(selected: Seq<CandidateWindow<S>>, list: Seq<CandidateWindow<S>>, k: nat)
    requires
        is_selection_of(selected, list),
        selected.len() <= MAX_KEEP,
        k <= list.len(),
    ensures
        is_selection_of(filled_up(selected, list, k), list),
        selected.len() <= filled_up(selected, list, k).len() <= MAX_KEEP,
        k > 0 ==> filled_up(selected, list, k).len() > 0,
    decreases k,
{
    if k > 0 {
        lemma_filled_up(selected, list, (k - 1) as nat);
        let before = filled_up(selected, list, (k - 1) as nat);
        assert(list.contains(list[k - 1]));
        lemma_with_candidate(before, list[k - 1], list);
    }
}

/// A selection has at most [`MAX_KEEP`] candidates of the list, at different
/// places, and at least one where the list has one.
pub proof fn law_selection_is_bounded<S>(list: Seq<CandidateWindow<S>>)
    ensures
        is_selection_of(selection(list), list),
        selection(list).len() <= MAX_KEEP,
        list.len() > 0 ==> selection(list).len() > 0,
{
    let zero = Seq::<CandidateWindow<S>>::empty();
    lemma_first_from(list, Source::Anchor);
    lemma_first_from(list, Source::Embed);
    lemma_first_from(list, Source::Simhash);
    if let Some(c) = first_from(list, Source::Anchor) {
        lemma_with_candidate(zero, c, list);
    }
    let one = with_first_from(zero, list, Source::Anchor);
    if let Some(c) = first_from(list, Source::Embed) {
        lemma_with_candidate(one, c, list);
    }
    let two = with_first_from(one, list, Source::Embed);
    if let Some(c) = first_from(list, Source::Simhash) {
        lemma_with_candidate(two, c, list);
    }
    let three = with_first_from(two, list, Source::Simhash);
    lemma_filled_up(three, list, list.len());
}

// ---------------------------------------------------------------------------
// Alignment of the selected candidates

/// The half-width of the band for `m` heard words: a fifth of them, rounded, and
/// 60 more, between 120 and 700.
pub open spec fn band_for(m: int) -> int {
    let b = (m + 2) / 5 + 60;
    if b < 120 {
        120
    } else if b > 700 {
        700
    } else {
        b
    }
}

pub fn band_width(m: usize) -> (r: usize)
    ensures
        r == band_for(m as int),
{
    if m >= 3200 {
        700
    } else {
        let b: usize = (m + 2) / 5 + 60;
        if b < 120 {
            120
        } else if b > 700 {
            700
        } else {
            b
        }
    }
}

/// The best alignment within a candidate.
pub open spec fn aligned_in<S: Scalar>(a: AlignmentAssetsV2<S>, obs: Seq<u32>, c: CandidateWindow<S>) -> Alignment<S> {
    let t = dp::task_of(
        obs,
        stretch(a, c),
        c.ref_start as int,
        c.expected_offset as int,
        band_for(obs.len() as int),
        a.confusions,
        a.id_to_token@,
    );
    Alignment {
        candidate_source: Some(c.source),
        quick_score: c.quick_score,
        ..dp::best_alignment(t, c.ref_start as int, c.expected_offset as int)
    }
}

/// What a list of results holds.
pub open spec fn alignments<S: Scalar>(v: Seq<AlignmentResultV2<S>>) -> Seq<Alignment<S>> {
    v.map_values(|r: AlignmentResultV2<S>| r@)
}

/// Aligns the heard words within one candidate.
pub fn align_candidate<S: Scalar>(a: &AlignmentAssetsV2<S>, obs: &[u32], c: CandidateWindow<S>) -> (r:
    AlignmentResultV2<S>)
    requires
        a.wf(),
        obs@.len() < i32::MAX,
        lies_in(*a, c),
    ensures
        r@ == aligned_in(*a, obs@, c),
{
    let refs = a.ref_token_ids.as_slice();
    let conf = match &a.confusions {
        None => None,
        Some(m) => Some(m),
    };
    let mut r = dp::weighted_banded_dp(
        obs,
        vstd::slice::slice_subrange(refs, c.ref_start, c.ref_end),
        c.ref_start,
        c.expected_offset,
        band_width(obs.len()),
        conf,
        &a.id_to_token,
    );
    r.candidate_source = Some(c.source);
    r.quick_score = c.quick_score;
    r
}

/// Rayon's `into_par_iter`, `map` and `collect` on a vector: every candidate is
/// handed to [`align_candidate`] once, on some thread, and the results come back
/// in the order of the candidates.
#[verifier::external_body]
fn align_in_parallel<S: Scalar>(a: &AlignmentAssetsV2<S>, obs: &[u32], list: Vec<CandidateWindow<S>>) -> (r: Vec<
    AlignmentResultV2<S>,
>)
    requires
        a.wf(),
        obs@.len() < i32::MAX,
        all_lie_in(*a, list@),
    ensures
        alignments(r@) == list@.map_values(|c: CandidateWindow<S>| aligned_in(*a, obs@, c)),
{
    list.into_par_iter().map(|c| align_candidate(a, obs, c)).collect()
}

fn align_in_turn<S: Scalar>(a: &AlignmentAssetsV2<S>, obs: &[u32], list: &[CandidateWindow<S>]) -> (r: Vec<
    AlignmentResultV2<S>,
>)
    requires
        a.wf(),
        obs@.len() < i32::MAX,
        all_lie_in(*a, list@),
    ensures
        alignments(r@) == list@.map_values(|c: CandidateWindow<S>| aligned_in(*a, obs@, c)),
{
    let ghost want = list@.map_values(|c: CandidateWindow<S>| aligned_in(*a, obs@, c));
    let mut out: Vec<AlignmentResultV2<S>> = Vec::new();
    let mut i: usize = 0;
    assert(alignments(out@) =~= want.take(0));
    while i < list.len()
        invariant
            a.wf(),
            obs@.len() < i32::MAX,
            all_lie_in(*a, list@),
            want == list@.map_values(|c: CandidateWindow<S>| aligned_in(*a, obs@, c)),
            i <= list@.len(),
            alignments(out@) == want.take(i as int),
        decreases list@.len() - i,
    {
        assert(lies_in(*a, list@[i as int]));
        let r = align_candidate(a, obs, list[i]);
        let ghost before = alignments(out@);
        out.push(r);
        proof {
            assert(r@ == want[i as int]);
            assert(alignments(out@) =~= before.push(r@));
            assert(want.take(i as int + 1) =~= want.take(i as int).push(want[i as int]));
        }
        i = i + 1;
    }
    assert(alignments(out@) =~= want);
    out
}

/// Aligns the heard words with each candidate. Long transcripts with several
/// candidates are worth the threads.
pub fn align_candidates<S: Scalar>(a: &AlignmentAssetsV2<S>, obs: &[u32], list: Vec<CandidateWindow<S>>) -> (r: Vec<
    AlignmentResultV2<S>,
>)
    requires
        a.wf(),
        obs@.len() < i32::MAX,
        all_lie_in(*a, list@),
    ensures
        alignments(r@) == list@.map_values(|c: CandidateWindow<S>| aligned_in(*a, obs@, c)),
{
    if list.len() >= 4 && obs.len() >= 120 {
        align_in_parallel(a, obs, list)
    } else {
        align_in_turn(a, obs, &list)
    }
}

/// A result's rank: cheaper ones come first, then those with more hits.
pub struct ResultKey<S> {
    pub norm: S,
    pub matches: usize,
    pub index: usize,
}

impl<S: Copy> Clone for ResultKey<S> {
    fn clone(&self) -> (r: Self)
        ensures
            r == *self,
    {
        *self
    }
}

impl<S: Copy> Copy for ResultKey<S> {

}

impl<S: Scalar> Keyed for ResultKey<S> {
    open spec fn key(self) -> (int, int) {
        (self.norm.rank(), -self.matches)
    }

    fn before(&self, other: &Self) -> (r: bool) {
        if self.norm.below(other.norm) {
            true
        } else if other.norm.below(self.norm) {
            false
        } else {
            other.matches < self.matches
        }
    }
}

/// The cost per heard word.
pub open spec fn norm_cost<S: Scalar>(r: Alignment<S>, m: nat) -> S {
    r.cost.over_spec(
        S::whole_spec(
            if m < 1 {
                1
            } else {
                m
            },
        ),
    )
}

pub open spec fn result_keys<S: Scalar>(list: Seq<Alignment<S>>, m: nat) -> Seq<ResultKey<S>> {
    Seq::new(
        list.len(),
        |i: int|
            ResultKey { norm: norm_cost(list[i], m), matches: list[i].matches as usize, index: i as usize },
    )
}

/// The results in order of their ranks.
pub open spec fn ranking<S: Scalar>(list: Seq<Alignment<S>>, m: nat) -> Seq<ResultKey<S>> {
    sorting::sorted(result_keys(list, m))
}

/// The cost per word of the second-best result; one more than that of the best
/// where there is no other.
pub open spec fn second_norm<S: Scalar>(order: Seq<ResultKey<S>>) -> S {
    if order.len() > 1 {
        order[1].norm
    } else {
        order[0].norm.plus_spec(S::whole_spec(1))
    }
}

pub fn rank_results<S: Scalar>(list: &[AlignmentResultV2<S>], m: usize) -> (r: Vec<ResultKey<S>>)
    ensures
        r@ == ranking(alignments(list@), m as nat),
        r@.len() == list@.len(),
        forall|k: int| 0 <= k < r@.len() ==> (#[trigger] r@[k]).index < list@.len(),
{
    let words: S = S::whole(
        if m < 1 {
            1
        } else {
            m as u64
        },
    );
    let ghost all = alignments(list@);
    let mut keys: Vec<ResultKey<S>> = Vec::new();
    let mut i: usize = 0;
    while i < list.len()
        invariant
            i <= list@.len(),
            all == alignments(list@),
            words == S::whole_spec(
                if m < 1 {
                    1
                } else {
                    m as nat
                },
            ),
            keys@ == result_keys(all, m as nat).take(i as int),
        decreases list@.len() - i,
    {
        assert(all[i as int] == list@[i as int]@);
        keys.push(ResultKey { norm: list[i].cost.over(words), matches: list[i].matches, index: i });
        assert(keys@ =~= result_keys(all, m as nat).take(i as int + 1));
        i = i + 1;
    }
    assert(keys@ =~= result_keys(all, m as nat));
    let r = sorting::sort(&keys);
    proof {
        lemma_ranking_indexes(all, m as nat);
    }
    r
}

pub proof fn lemma_ranking_indexes<S: Scalar>(list: Seq<Alignment<S>>, m: nat)
    requires
        list.len() <= usize::MAX,
    ensures
        ranking(list, m).len() == list.len(),
        forall|k: int| 0 <= k < list.len() ==> (#[trigger] ranking(list, m)[k]).index < list.len(),
        forall|k: int|
            0 <= k < list.len() ==> (#[trigger] ranking(list, m)[k]).norm == norm_cost(
                list[ranking(list, m)[k].index as int],
                m,
            ),
{
    broadcast use vstd::seq_lib::group_to_multiset_ensures;

    let d = result_keys(list, m);
    let s = ranking(list, m);
    sorting::lemma_sorted_len(d);
    assert forall|k: int| 0 <= k < list.len() implies (#[trigger] s[k]).index < list.len() && s[k].norm == norm_cost(
        list[s[k].index as int],
        m,
    ) by {
        assert(s.contains(s[k]));
        assert(s.to_multiset().count(s[k]) > 0);
        assert(d.to_multiset().count(s[k]) > 0);
        assert(d.contains(s[k]));
        let j = choose|j: int| 0 <= j < d.len() && d[j] == s[k];
        assert(d[j].index == j);
    }
}

/// No result is cheaper per word than the first of the ranking.
pub proof fn law_best_result_is_cheapest<S: Scalar>(list: Seq<Alignment<S>>, m: nat, k: int)
    requires
        0 < list.len() <= usize::MAX,
        0 <= k < list.len(),
    ensures
        ranking(list, m)[0].norm.rank() <= norm_cost(list[k], m).rank(),
{
    broadcast use vstd::seq_lib::group_to_multiset_ensures;

    let d = result_keys(list, m);
    let s = ranking(list, m);
    sorting::lemma_sorted_len(d);
    sorting::law_sorted_is_in_order(d);
    assert(d.contains(d[k]));
    assert(d.to_multiset().count(d[k]) > 0);
    assert(s.to_multiset().count(d[k]) > 0);
    assert(s.contains(d[k]));
    let j = choose|j: int| 0 <= j < s.len() && s[j] == d[k];
    if j > 0 {
        assert(!sorting::key_before(s[j].key(), s[0].key()));
    }
}

// ---------------------------------------------------------------------------
// Confidence

/// The share of hits among the paired words.
pub open spec fn match_ratio<S: Scalar>(matches: nat, substitutions: nat) -> S {
    S::whole_spec(matches).over_spec(
        S::whole_spec(
            if substitutions < 1 {
                1
            } else {
                substitutions
            },
        ),
    )
}

/// By how much the second-best result costs more.
pub open spec fn cost_gap<S: Scalar>(best_norm: S, second: S) -> S {
    scalar::max_spec(second.minus_spec(best_norm), S::whole_spec(0))
}

/// How far a result is trusted: by its share of hits, by its lead over the next
/// result and by its quick score. Few paired words are little evidence.
pub open spec fn confidence_of<S: Scalar>(
    matches: nat,
    substitutions: nat,
    best_norm: S,
    second: S,
    quick: S,
) -> S {
    let zero = S::whole_spec(0);
    let one = S::whole_spec(1);
    let gap_score = scalar::min_spec(cost_gap(best_norm, second).over_spec(S::milli_spec(350)), one);
    let match_score = scalar::clamp_spec(
        match_ratio::<S>(matches, substitutions).minus_spec(S::milli_spec(200)).over_spec(S::milli_spec(650)),
        zero,
        one,
    );
    let quick_score = scalar::clamp_spec(quick, zero, one);
    let base = S::milli_spec(450).times_spec(match_score).plus_spec(
        S::milli_spec(350).times_spec(gap_score),
    ).plus_spec(S::milli_spec(200).times_spec(quick_score));
    let evidence = if substitutions < 20 {
        scalar::clamp_spec(S::whole_spec(substitutions).over_spec(S::whole_spec(12)), zero, one)
    } else {
        one
    };
    base.times_spec(evidence)
}

/// The weights of the three scores add up to no more than one.
pub open spec fn weights_fit<S: Scalar>() -> bool {
    S::milli_spec(450).plus_spec(S::milli_spec(350)).plus_spec(S::milli_spec(200)).rank() <= S::whole_spec(1).rank()
}

/// The weights of the three scores fit where numbers are thousandths.
pub proof fn law_weights_in_thousandths_fit()
    ensures
        weights_fit::<scalar::Thousandths>(),
{
}

/// Where shares combine as usual, a confidence lies between zero and one. Of up to
/// twelve paired words it is at most their number over twelve.
pub proof fn law_confidence_is_a_share<S: Scalar>(
    matches: nat,
    substitutions: nat,
    best_norm: S,
    second: S,
    quick: S,
)
    requires
        scalar::small_numbers_are_ordered::<S>(),
        scalar::counts_make_shares::<S>(),
        scalar::shares_combine::<S>(),
        weights_fit::<S>(),
    ensures
        scalar::is_share(confidence_of(matches, substitutions, best_norm, second, quick)),
        substitutions <= 12 ==> confidence_of(matches, substitutions, best_norm, second, quick).rank()
            <= S::whole_spec(substitutions).over_spec(S::whole_spec(12)).rank(),
{
    let zero = S::whole_spec(0);
    let one = S::whole_spec(1);
    assert(zero.rank() == S::milli_spec(0).rank());
    assert(one.rank() == S::milli_spec(1_000).rank());
    let w1 = S::milli_spec(450);
    let w2 = S::milli_spec(350);
    let w3 = S::milli_spec(200);
    assert(scalar::is_share(w1) && scalar::is_share(w2) && scalar::is_share(w3));
    let gap = cost_gap(best_norm, second);
    assert(zero.rank() <= gap.over_spec(S::milli_spec(350)).rank());
    let gap_score = scalar::min_spec(gap.over_spec(S::milli_spec(350)), one);
    let match_score = scalar::clamp_spec(
        match_ratio::<S>(matches, substitutions).minus_spec(S::milli_spec(200)).over_spec(S::milli_spec(650)),
        zero,
        one,
    );
    let quick_score = scalar::clamp_spec(quick, zero, one);
    let p1 = w1.times_spec(match_score);
    let p2 = w2.times_spec(gap_score);
    let p3 = w3.times_spec(quick_score);
    assert(zero.rank() <= p1.rank() <= w1.rank());
    assert(zero.rank() <= p2.rank() <= w2.rank());
    assert(zero.rank() <= p3.rank() <= w3.rank());
    assert(zero.rank() <= p1.plus_spec(p2).rank() <= w1.plus_spec(w2).rank());
    let base = p1.plus_spec(p2).plus_spec(p3);
    assert(zero.rank() <= base.rank() <= w1.plus_spec(w2).plus_spec(w3).rank());
    if substitutions <= 12 {
        assert(scalar::is_share(S::whole_spec(substitutions).over_spec(S::whole_spec(12))));
    }
}

pub fn share_of_hits<S: Scalar>(matches: usize, substitutions: usize) -> (r: S)
    ensures
        r == match_ratio::<S>(matches as nat, substitutions as nat),
{
    let pairs: u64 = if substitutions < 1 {
        1
    } else {
        substitutions as u64
    };
    S::whole(matches as u64).over(S::whole(pairs))
}

pub fn gap_of<S: Scalar>(best_norm: S, second: S) -> (r: S)
    ensures
        r == cost_gap(best_norm, second),
{
    scalar::max_of(second.minus(best_norm), S::whole(0))
}

pub fn judge<S: Scalar>(matches: usize, substitutions: usize, best_norm: S, second: S, quick: S) -> (r: S)
    ensures
        r == confidence_of(matches as nat, substitutions as nat, best_norm, second, quick),
{
    let zero: S = S::whole(0);
    let one: S = S::whole(1);
    let gap_score: S = scalar::min_of(gap_of(best_norm, second).over(S::milli(350)), one);
    let match_score: S = scalar::clamp_to(
        share_of_hits::<S>(matches, substitutions).minus(S::milli(200)).over(S::milli(650)),
        zero,
        one,
    );
    let quick_score: S = scalar::clamp_to(quick, zero, one);
    let base: S = S::milli(450).times(match_score).plus(S::milli(350).times(gap_score)).plus(
        S::milli(200).times(quick_score),
    );
    let evidence: S = if substitutions < 20 {
        scalar::clamp_to(S::whole(substitutions as u64).over(S::whole(12)), zero, one)
    } else {
        one
    };
    base.times(evidence)
}

// ---------------------------------------------------------------------------
// What confidence depends on, in thousandths

/// What the hits add, before the evidence is weighed.
spec fn hit_part(matches: nat, substitutions: nat) -> int {
    let pairs = if substitutions < 1 {
        1
    } else {
        substitutions as int
    };
    let score = (((matches as int * 1000) / pairs - 200) * 1000) / 650;
    (450 * (if score < 0 {
        0
    } else if score > 1000 {
        1000
    } else {
        score
    })) / 1000
}

/// What a lead adds.
spec fn lead_part(lead: int) -> int {
    let gap = if lead < 0 {
        0
    } else {
        lead
    };
    let score = (gap * 1000) / 350;
    (350 * (if score > 1000 {
        1000
    } else {
        score
    })) / 1000
}

spec fn quick_part(quick: int) -> int {
    (200 * (if quick < 0 {
        0
    } else if quick > 1000 {
        1000
    } else {
        quick
    })) / 1000
}

spec fn evidence_of(substitutions: nat) -> int {
    if substitutions < 12 {
        (substitutions as int * 1000) / 12
    } else {
        1000
    }
}

/// Counts and costs that are small enough for their thousandths to be exact.
pub open spec fn are_moderate(matches: nat, substitutions: nat, best_norm: scalar::Thousandths, second: scalar::Thousandths) -> bool {
    &&& matches <= 1_000_000_000
    &&& substitutions <= 1_000_000_000
    &&& -1_000_000_000_000 <= best_norm.count <= 1_000_000_000_000
    &&& -1_000_000_000_000 <= second.count <= 1_000_000_000_000
}

proof fn lemma_same_quotient(a: int, b: int)
    requires
        0 <= a,
        0 < b,
    ensures
        (a * 1000 * 1000) / (b * 1000) == (a * 1000) / b,
        0 <= (a * 1000) / b <= a * 1000,
{
    vstd::arithmetic::div_mod::lemma_div_multiples_vanish_quotient(1000, a * 1000, b);
    assert(1000 * (a * 1000) == a * 1000 * 1000);
    assert(1000 * b == b * 1000);
    assert(0 <= (a * 1000) / b <= a * 1000) by (nonlinear_arith)
        requires
            0 <= a,
            0 < b,
    ;
}

proof fn lemma_confidence(matches: nat, substitutions: nat, best_norm: scalar::Thousandths, second: scalar::Thousandths, quick: scalar::Thousandths)
    requires
        are_moderate(matches, substitutions, best_norm, second),
    ensures
        ({
            let base = hit_part(matches, substitutions) + lead_part(second.count - best_norm.count) + quick_part(
                quick.count as int,
            );
            &&& 0 <= base <= 1000
            &&& 0 <= evidence_of(substitutions) <= 1000
            &&& confidence_of(matches, substitutions, best_norm, second, quick).count == (base * evidence_of(
                substitutions,
            )) / 1000
            &&& 12 <= substitutions ==> confidence_of(matches, substitutions, best_norm, second, quick).count == base
            &&& 0 <= hit_part(matches, substitutions) <= 450
            &&& 0 <= lead_part(second.count - best_norm.count) <= 350
            &&& 0 <= quick_part(quick.count as int) <= 200
        }),
{
    let pairs = if substitutions < 1 {
        1
    } else {
        substitutions as int
    };
    lemma_same_quotient(matches as int, pairs);
    lemma_same_quotient(substitutions as int, 12);
    let zero = scalar::Thousandths::whole_spec(0);
    let one = scalar::Thousandths::whole_spec(1);
    let ratio = match_ratio::<scalar::Thousandths>(matches, substitutions);
    assert(ratio.count == (matches as int * 1000) / pairs);
    let over = ratio.minus_spec(scalar::Thousandths::milli_spec(200)).over_spec(scalar::Thousandths::milli_spec(650));
    assert(over.count == ((ratio.count - 200) * 1000) / 650);
    let match_score = scalar::clamp_spec(over, zero, one);
    let gap = cost_gap(best_norm, second);
    let gap_score = scalar::min_spec(gap.over_spec(scalar::Thousandths::milli_spec(350)), one);
    let quick_score = scalar::clamp_spec(quick, zero, one);
    let evidence = if substitutions < 20 {
        scalar::clamp_spec(
            scalar::Thousandths::whole_spec(substitutions).over_spec(scalar::Thousandths::whole_spec(12)),
            zero,
            one,
        )
    } else {
        one
    };
    assert(evidence.count == evidence_of(substitutions));
    let base = scalar::Thousandths::milli_spec(450).times_spec(match_score).plus_spec(
        scalar::Thousandths::milli_spec(350).times_spec(gap_score),
    ).plus_spec(scalar::Thousandths::milli_spec(200).times_spec(quick_score));
    assert(base.count == hit_part(matches, substitutions) + lead_part(second.count - best_norm.count) + quick_part(
        quick.count as int,
    ));
    let x = base.count as int;
    let y = evidence.count as int;
    assert(0 <= (x * y) / 1000 <= 1000) by (nonlinear_arith)
        requires
            0 <= x <= 1000,
            0 <= y <= 1000,
    ;
    assert(y == 1000 ==> (x * y) / 1000 == x) by (nonlinear_arith);
}

proof fn lemma_more_hits(m1: nat, m2: nat, substitutions: nat)
    requires
        m1 <= m2,
    ensures
        hit_part(m1, substitutions) <= hit_part(m2, substitutions),
{
    let pairs = if substitutions < 1 {
        1
    } else {
        substitutions as int
    };
    assert((m1 as int * 1000) / pairs <= (m2 as int * 1000) / pairs) by (nonlinear_arith)
        requires
            m1 <= m2,
            0 < pairs,
    ;
}

proof fn lemma_scaled(x: int, y: int, e: int)
    requires
        0 <= x <= y,
        0 <= e,
    ensures
        (x * e) / 1000 <= (y * e) / 1000,
{
    assert(x * e <= y * e) by (nonlinear_arith)
        requires
            x <= y,
            0 <= e,
    ;
}

/// More hits among as many paired words give no less confidence, nor does a larger
/// lead over the next result or a better quick score.
pub proof fn law_confidence_grows(
    m1: nat,
    m2: nat,
    substitutions: nat,
    best_norm: scalar::Thousandths,
    second1: scalar::Thousandths,
    second2: scalar::Thousandths,
    quick1: scalar::Thousandths,
    quick2: scalar::Thousandths,
)
    requires
        are_moderate(m2, substitutions, best_norm, second1),
        are_moderate(m2, substitutions, best_norm, second2),
        m1 <= m2,
        second1.count <= second2.count,
        quick1.count <= quick2.count,
    ensures
        confidence_of(m1, substitutions, best_norm, second1, quick1).count <= confidence_of(
            m2,
            substitutions,
            best_norm,
            second2,
            quick2,
        ).count,
{
    lemma_confidence(m1, substitutions, best_norm, second1, quick1);
    lemma_confidence(m2, substitutions, best_norm, second2, quick2);
    lemma_more_hits(m1, m2, substitutions);
    lemma_scaled(
        hit_part(m1, substitutions) + lead_part(second1.count - best_norm.count) + quick_part(quick1.count as int),
        hit_part(m2, substitutions) + lead_part(second2.count - best_norm.count) + quick_part(quick2.count as int),
        evidence_of(substitutions),
    );
}

/// Hits that are at most a fifth of the paired words give nothing: the confidence is
/// that without any hit. From a share of 0.85 on they give all they can, and with twelve
/// paired words or more a smaller share gives less.
pub proof fn law_share_of_hits_counts(
    matches: nat,
    substitutions: nat,
    best_norm: scalar::Thousandths,
    second: scalar::Thousandths,
    quick: scalar::Thousandths,
)
    requires
        are_moderate(matches, substitutions, best_norm, second),
        0 < substitutions,
        matches <= substitutions,
    ensures
        ({
            let r = confidence_of(matches, substitutions, best_norm, second, quick).count;
            let none = confidence_of(0, substitutions, best_norm, second, quick).count;
            let all = confidence_of(substitutions, substitutions, best_norm, second, quick).count;
            &&& 5 * matches <= substitutions ==> r == none
            &&& 100 * matches >= 85 * substitutions ==> r == all
            &&& 100 * matches < 85 * substitutions && 12 <= substitutions ==> r < all
            &&& 12 <= substitutions ==> all == none + 450
        }),
{
    let n = substitutions as int;
    let m = matches as int;
    lemma_confidence(matches, substitutions, best_norm, second, quick);
    lemma_confidence(0, substitutions, best_norm, second, quick);
    lemma_confidence(substitutions, substitutions, best_norm, second, quick);
    assert((n * 1000) / n == 1000) by (nonlinear_arith)
        requires
            0 < n,
    ;
    assert((0int * 1000) / n == 0) by (nonlinear_arith)
        requires
            0 < n,
    ;
    let q = (m * 1000) / n;
    assert(q * n <= m * 1000 < q * n + n) by (nonlinear_arith)
        requires
            q == (m * 1000) / n,
            0 < n,
    ;
    if 5 * m <= n {
        assert(q <= 200) by (nonlinear_arith)
            requires
                5 * m <= n,
                q * n <= m * 1000,
                0 < n,
        ;
    }
    if 100 * m >= 85 * n {
        assert(q >= 850) by (nonlinear_arith)
            requires
                100 * m >= 85 * n,
                m * 1000 < q * n + n,
                0 < n,
        ;
    } else {
        assert(q < 850) by (nonlinear_arith)
            requires
                100 * m < 85 * n,
                q * n <= m * 1000,
                0 < n,
        ;
    }
    assert(hit_part(0, substitutions) == 0);
    assert(hit_part(substitutions, substitutions) == 450);
    assert(5 * m <= n ==> hit_part(matches, substitutions) == 0);
    assert(100 * m >= 85 * n ==> hit_part(matches, substitutions) == 450) by {
        if 100 * m >= 85 * n {
            assert((q - 200) * 1000 >= 650_000);
        }
    }
    assert(100 * m < 85 * n ==> hit_part(matches, substitutions) < 450) by {
        if 100 * m < 85 * n {
            assert((q - 200) * 1000 < 650_000);
        }
    }
}

/// With twelve paired words or more, what hits, lead and quick score give is added up:
/// 0.45 for the hits, 0.35 for the lead and 0.20 for the quick score at most.
pub proof fn law_confidence_adds_up(
    matches: nat,
    substitutions: nat,
    best_norm: scalar::Thousandths,
    second: scalar::Thousandths,
    quick: scalar::Thousandths,
)
    requires
        are_moderate(matches, substitutions, best_norm, second),
        12 <= substitutions,
    ensures
        ({
            let zero = scalar::Thousandths { count: 0 };
            let hits = confidence_of(matches, substitutions, best_norm, best_norm, zero).count;
            let lead = confidence_of(0, substitutions, best_norm, second, zero).count;
            let likely = confidence_of(0, substitutions, best_norm, best_norm, quick).count;
            &&& confidence_of(matches, substitutions, best_norm, second, quick).count == hits + lead + likely
            &&& 0 <= hits <= 450
            &&& 0 <= lead <= 350
            &&& 0 <= likely <= 200
        }),
{
    let zero = scalar::Thousandths { count: 0 };
    lemma_confidence(matches, substitutions, best_norm, second, quick);
    lemma_confidence(matches, substitutions, best_norm, best_norm, zero);
    lemma_confidence(0, substitutions, best_norm, second, zero);
    lemma_confidence(0, substitutions, best_norm, best_norm, quick);
    let n = substitutions as int;
    assert((0int * 1000) / n == 0) by (nonlinear_arith)
        requires
            0 < n,
    ;
}

/// Between a fifth and 0.85, what the hits give grows evenly with their share, from
/// nothing to 0.45, to within three thousandths.
pub proof fn law_hits_give_evenly(matches: nat, substitutions: nat, best_norm: scalar::Thousandths)
    requires
        are_moderate(matches, substitutions, best_norm, best_norm),
        12 <= substitutions,
        substitutions <= 5 * matches,
        100 * matches <= 85 * substitutions,
    ensures
        ({
            let r = confidence_of(matches, substitutions, best_norm, best_norm, scalar::Thousandths { count: 0 }).count;
            let share_over_fifth = 1000 * matches - 200 * substitutions;
            &&& 13 * r * substitutions <= 9 * share_over_fifth
            &&& 9 * share_over_fifth <= 13 * (r + 3) * substitutions
        }),
{
    let n = substitutions as int;
    let m = matches as int;
    lemma_confidence(matches, substitutions, best_norm, best_norm, scalar::Thousandths { count: 0 });
    let r = confidence_of(matches, substitutions, best_norm, best_norm, scalar::Thousandths { count: 0 }).count as int;
    let q = (m * 1000) / n;
    assert(q * n <= m * 1000 < q * n + n) by (nonlinear_arith)
        requires
            q == (m * 1000) / n,
            0 < n,
    ;
    assert(200 <= q <= 850) by (nonlinear_arith)
        requires
            n <= 5 * m,
            100 * m <= 85 * n,
            q * n <= m * 1000 < q * n + n,
            0 < n,
    ;
    let u = q - 200;
    assert(r == (450 * ((u * 1000) / 650)) / 1000);
    assert(13 * r <= 9 * u);
    assert(9 * u + 9 <= 13 * (r + 3));
    assert(13 * r * n <= 9 * (1000 * m - 200 * n)) by (nonlinear_arith)
        requires
            13 * r <= 9 * u,
            u == q - 200,
            q * n <= m * 1000,
            0 < n,
    ;
    assert(9 * (1000 * m - 200 * n) <= 13 * (r + 3) * n) by (nonlinear_arith)
        requires
            9 * u + 9 <= 13 * (r + 3),
            u == q - 200,
            m * 1000 < q * n + n,
            0 < n,
    ;
}

/// A lead gives as much as it is, up to 0.35, and no lead nothing; a quick score gives a
/// fifth of what it is, up to 0.20. Both to within two thousandths.
pub proof fn law_lead_and_quick_score_give(
    substitutions: nat,
    best_norm: scalar::Thousandths,
    second: scalar::Thousandths,
    quick: scalar::Thousandths,
)
    requires
        are_moderate(0, substitutions, best_norm, second),
        12 <= substitutions,
    ensures
        ({
            let zero = scalar::Thousandths { count: 0 };
            let lead = second.count - best_norm.count;
            let by_lead = confidence_of(0, substitutions, best_norm, second, zero).count;
            let by_quick = confidence_of(0, substitutions, best_norm, best_norm, quick).count;
            &&& lead <= 0 ==> by_lead == 0
            &&& 0 <= lead <= 350 ==> lead - 2 <= by_lead <= lead
            &&& 350 <= lead ==> by_lead == 350
            &&& quick.count <= 0 ==> by_quick == 0
            &&& 0 <= quick.count <= 1000 ==> quick.count - 5 < 5 * by_quick <= quick.count
            &&& 1000 <= quick.count ==> by_quick == 200
        }),
{
    let zero = scalar::Thousandths { count: 0 };
    lemma_confidence(0, substitutions, best_norm, second, zero);
    lemma_confidence(0, substitutions, best_norm, best_norm, quick);
    let n = substitutions as int;
    assert((0int * 1000) / n == 0) by (nonlinear_arith)
        requires
            0 < n,
    ;
}

/// Fewer than twelve paired words are little evidence: the confidence is as many
/// twelfths of what as large shares of more words give, to within two thousandths.
pub proof fn law_few_words_are_little_evidence(
    matches: nat,
    substitutions: nat,
    times: nat,
    best_norm: scalar::Thousandths,
    second: scalar::Thousandths,
    quick: scalar::Thousandths,
)
    requires
        are_moderate(matches * times, substitutions * times, best_norm, second),
        0 < substitutions < 12,
        12 <= substitutions * times,
    ensures
        ({
            let few = confidence_of(matches, substitutions, best_norm, second, quick).count;
            let many = confidence_of(matches * times, substitutions * times, best_norm, second, quick).count;
            substitutions * many - 24 <= 12 * few <= substitutions * many
        }),
{
    let n = substitutions as int;
    let m = matches as int;
    let k = times as int;
    assert(0 < k) by (nonlinear_arith)
        requires
            12 <= n * k,
            0 < n,
    ;
    assert(m <= m * k && n <= n * k) by (nonlinear_arith)
        requires
            0 < k,
            0 <= m,
            0 <= n,
    ;
    lemma_confidence(matches, substitutions, best_norm, second, quick);
    lemma_confidence(matches * times, substitutions * times, best_norm, second, quick);
    vstd::arithmetic::div_mod::lemma_div_multiples_vanish_quotient(k, m * 1000, n);
    assert(k * (m * 1000) == m * k * 1000) by (nonlinear_arith);
    assert(k * n == n * k) by (nonlinear_arith);
    assert(hit_part(matches * times, substitutions * times) == hit_part(matches, substitutions));
    let base = hit_part(matches, substitutions) + lead_part(second.count - best_norm.count) + quick_part(
        quick.count as int,
    );
    let e = (n * 1000) / 12;
    let few = (base * e) / 1000;
    assert(n * base - 24 <= 12 * few <= n * base) by (nonlinear_arith)
        requires
            e == (n * 1000) / 12,
            few == (base * e) / 1000,
            0 <= base <= 1000,
            0 < n < 12,
    ;
}

/// Without paired words there is no confidence.
pub proof fn law_no_words_no_confidence(matches: nat, best_norm: scalar::Thousandths, second: scalar::Thousandths, quick: scalar::Thousandths)
    requires
        are_moderate(matches, 0, best_norm, second),
    ensures
        confidence_of(matches, 0, best_norm, second, quick).count == 0,
{
    lemma_confidence(matches, 0, best_norm, second, quick);
    let base = hit_part(matches, 0) + lead_part(second.count - best_norm.count) + quick_part(quick.count as int);
    assert(evidence_of(0) == 0);
    assert(base * 0 == 0);
}

// ---------------------------------------------------------------------------
// Laws on the choice of candidates and results

/// The words by which candidates are scored are those that were heard, known and no stop
/// words, each once and with its weight.
pub proof fn law_scoring_words_are_those_heard<S: Scalar>(a: AlignmentAssetsV2<S>, obs: Seq<u32>, id: u32)
    ensures
        lists(distinct_words(a, obs), id) <==> obs.contains(id) && id != 0 && !candidates::is_stop(a, id),
        forall|i: int, j: int|
            0 <= i < j < distinct_words(a, obs).len() ==> (#[trigger] distinct_words(a, obs)[i]).id != (
            #[trigger] distinct_words(a, obs)[j]).id,
        forall|i: int|
            0 <= i < distinct_words(a, obs).len() ==> (#[trigger] distinct_words(a, obs)[i]).weight
                == candidates::idf_of(a, distinct_words(a, obs)[i].id) && obs.contains(distinct_words(a, obs)[i].id),
    decreases obs.len(),
{
    if obs.len() > 0 {
        let p = obs.drop_last();
        let x = obs.last();
        let before = distinct_words(a, p);
        let now = distinct_words(a, obs);
        law_scoring_words_are_those_heard(a, p, id);
        assert forall|y: u32| p.contains(y) implies obs.contains(y) by {
            let k = choose|k: int| 0 <= k < p.len() && p[k] == y;
            assert(obs[k] == y);
        }
        assert(obs[obs.len() - 1] == x);
        assert(obs.contains(x));
        if obs.contains(id) && id != x {
            let k = choose|k: int| 0 <= k < obs.len() && obs[k] == id;
            assert(p[k] == id);
        }
        if lists(now, id) {
            let k = choose|k: int| 0 <= k < now.len() && (#[trigger] now[k]).id == id;
            if k < before.len() {
                assert(before[k].id == id);
                assert(lists(before, id));
            }
        }
        if lists(before, id) {
            let k = choose|k: int| 0 <= k < before.len() && (#[trigger] before[k]).id == id;
            assert(now[k].id == id);
        }
        if now.len() > before.len() {
            assert(now[now.len() - 1].id == x);
            assert forall|i: int, j: int| 0 <= i < j < now.len() implies (#[trigger] now[i]).id != (
            #[trigger] now[j]).id by {
                if j == before.len() {
                    assert(now[i] == before[i]);
                    assert(p.contains(before[i].id));
                }
            }
        }
    }
}

/// Of more than 64 such words the 64 of the greatest weight count, the weightier ones
/// first.
pub proof fn law_weightiest_words_score<S: Scalar>(a: AlignmentAssetsV2<S>, obs: Seq<u32>)
    ensures
        ({
            let all = distinct_words(a, obs);
            let top = top_words(a, obs);
            let order = sorting::sorted(all);
            &&& top.len() == (if all.len() < 64 {
                all.len()
            } else {
                64
            })
            &&& order.to_multiset() == all.to_multiset()
            &&& forall|i: int, j: int|
                0 <= i < j < order.len() ==> (#[trigger] order[j]).weight.rank() <= (#[trigger] order[i]).weight.rank()
            &&& forall|i: int| 0 <= i < top.len() ==> #[trigger] top[i] == order[i]
        }),
{
    let all = distinct_words(a, obs);
    sorting::lemma_sorted_len(all);
    sorting::law_sorted_is_in_order(all);
    let order = sorting::sorted(all);
    assert forall|i: int, j: int| 0 <= i < j < order.len() implies (#[trigger] order[j]).weight.rank() <= (
    #[trigger] order[i]).weight.rank() by {
        assert(!sorting::key_before(order[j].key(), order[i].key()));
    }
}

/// One more word of a stretch adds its weight if it is one of the words that count and
/// does not stand in the stretch yet, and nothing else.
pub proof fn law_found_words_count_once<S: Scalar>(a: AlignmentAssetsV2<S>, words: Seq<Weighed<S>>, refs: Seq<u32>, id: u32)
    ensures
        lists(words, id) && id != 0 && !refs.contains(id) ==> found_weight(a, words, refs.push(id)) == found_weight(
            a,
            words,
            refs,
        ).plus_spec(candidates::idf_of(a, id)),
        !lists(words, id) || id == 0 || refs.contains(id) ==> found_weight(a, words, refs.push(id)) == found_weight(
            a,
            words,
            refs,
        ),
        found_weight(a, words, Seq::empty()) == S::whole_spec(0),
{
    assert(refs.push(id).drop_last() =~= refs);
}

/// Candidates with a better quick score come first, and of two as good the shorter one.
pub proof fn law_better_candidates_come_first<S: Scalar>(list: Seq<CandidateWindow<S>>, i: int, j: int)
    requires
        0 <= i < j < list.len(),
    ensures
        ({
            let order = sorting::sorted(list);
            &&& order.len() == list.len()
            &&& order.to_multiset() == list.to_multiset()
            &&& order[j].quick_score.rank() <= order[i].quick_score.rank()
            &&& order[j].quick_score.rank() == order[i].quick_score.rank() ==> order[i].ref_end - order[i].ref_start
                <= order[j].ref_end - order[j].ref_start
        }),
{
    sorting::lemma_sorted_len(list);
    sorting::law_sorted_is_in_order(list);
    let order = sorting::sorted(list);
    assert(!sorting::key_before(order[j].key(), order[i].key()));
}

/// Some selected candidate covers the same place.
pub open spec fn is_covered<S>(selected: Seq<CandidateWindow<S>>, c: CandidateWindow<S>) -> bool {
    exists|k: int|
        0 <= k < selected.len() && (#[trigger] selected[k]).ref_start == c.ref_start && selected[k].ref_end == c.ref_end
            && selected[k].expected_offset == c.expected_offset
}

proof fn lemma_candidate_covered<S>(selected: Seq<CandidateWindow<S>>, c: CandidateWindow<S>, d: CandidateWindow<S>)
    ensures
        is_covered(with_candidate(selected, c), c),
        is_covered(selected, d) ==> is_covered(with_candidate(selected, c), d),
        selected.len() <= with_candidate(selected, c).len() <= selected.len() + 1,
{
    let r = with_candidate(selected, c);
    if exists|k: int| 0 <= k < selected.len() && same_place(#[trigger] selected[k], c) {
        let k = choose|k: int| 0 <= k < selected.len() && same_place(#[trigger] selected[k], c);
        assert(r[k].ref_start == c.ref_start);
    } else {
        assert(r[r.len() - 1] == c);
    }
    if is_covered(selected, d) {
        let k = choose|k: int|
            0 <= k < selected.len() && (#[trigger] selected[k]).ref_start == d.ref_start && selected[k].ref_end
                == d.ref_end && selected[k].expected_offset == d.expected_offset;
        assert(r[k] == selected[k]);
    }
}

proof fn lemma_all_covered<S>(selected: Seq<CandidateWindow<S>>, list: Seq<CandidateWindow<S>>, k: nat, d: CandidateWindow<S>)
    requires
        k <= list.len(),
    ensures
        is_covered(selected, d) ==> is_covered(filled_up(selected, list, k), d),
        selected.len() <= filled_up(selected, list, k).len(),
        filled_up(selected, list, k).len() < 10 ==> forall|i: int|
            0 <= i < k ==> is_covered(filled_up(selected, list, k), #[trigger] list[i]),
    decreases k,
{
    if k > 0 {
        lemma_all_covered(selected, list, (k - 1) as nat, d);
        let before = filled_up(selected, list, (k - 1) as nat);
        let now = filled_up(selected, list, k);
        lemma_candidate_covered(before, list[k - 1], d);
        if now.len() < 10 {
            assert forall|i: int| 0 <= i < k implies is_covered(now, #[trigger] list[i]) by {
                lemma_candidate_covered(before, list[k - 1], list[i]);
            }
        }
    }
}

proof fn lemma_first_of_kind<S>(list: Seq<CandidateWindow<S>>, source: Source, i: int)
    requires
        0 <= i < list.len(),
        list[i].source == source,
        forall|q: int| 0 <= q < i ==> (#[trigger] list[q]).source != source,
    ensures
        first_from(list, source) == Some(list[i]),
    decreases list.len(),
{
    if i > 0 {
        let rest = list.skip(1);
        assert(list[0].source != source);
        assert forall|q: int| 0 <= q < i - 1 implies (#[trigger] rest[q]).source != source by {
            assert(rest[q] == list[q + 1]);
        }
        lemma_first_of_kind(rest, source, i - 1);
    }
}

/// Of each kind of candidate the first one is selected, and ten in all if there are so
/// many: where fewer are selected, they cover all candidates.
pub proof fn law_each_kind_is_selected<S>(list: Seq<CandidateWindow<S>>, i: int)
    requires
        0 <= i < list.len(),
        (forall|q: int| 0 <= q < i ==> (#[trigger] list[q]).source != list[i].source) || selection(list).len() < 10,
    ensures
        is_covered(selection(list), list[i]),
        selection(list).len() <= 10,
{
    law_selection_is_bounded(list);
    let c = list[i];
    let one = with_first_from(Seq::empty(), list, Source::Anchor);
    let two = with_first_from(one, list, Source::Embed);
    let three = with_first_from(two, list, Source::Simhash);
    lemma_all_covered(three, list, list.len(), c);
    if forall|q: int| 0 <= q < i ==> (#[trigger] list[q]).source != c.source {
        lemma_first_of_kind(list, c.source, i);
        lemma_candidate_covered(Seq::empty(), c, c);
        lemma_candidate_covered(one, c, c);
        lemma_candidate_covered(two, c, c);
        match first_from(list, Source::Embed) {
            Some(d) => lemma_candidate_covered(one, d, c),
            None => {},
        }
        match first_from(list, Source::Simhash) {
            Some(d) => lemma_candidate_covered(two, d, c),
            None => {},
        }
    }
}

/// The band is a fifth of the heard words and 60 more, at least 120 and at most 700.
pub proof fn law_band_grows_with_the_words(m: int)
    requires
        0 <= m,
    ensures
        120 <= band_for(m) <= 700,
        300 <= m <= 3200 ==> -2 <= 5 * (band_for(m) - 60) - m <= 2,
        m < 298 ==> band_for(m) == 120,
        m > 3202 ==> band_for(m) == 700,
{
}

/// Of two results that cost as much per word, the one with more hits ranks first; every
/// result is ranked once.
pub proof fn law_more_hits_rank_first<S: Scalar>(list: Seq<Alignment<S>>, m: nat, i: int, j: int)
    requires
        0 <= i < j < list.len() <= usize::MAX,
    ensures
        ({
            let order = ranking(list, m);
            &&& order.len() == list.len()
            &&& order[i].norm.rank() <= order[j].norm.rank()
            &&& order[i].norm.rank() == order[j].norm.rank() ==> order[i].matches >= order[j].matches
            &&& order[i].index != order[j].index
        }),
{
    let d = result_keys(list, m);
    sorting::lemma_sorted_len(d);
    sorting::law_sorted_is_in_order(d);
    let order = ranking(list, m);
    assert(!sorting::key_before(order[j].key(), order[i].key()));
    lemma_ranked_once(list, m, i, j);
}

proof fn lemma_ranked_once<S: Scalar>(list: Seq<Alignment<S>>, m: nat, i: int, j: int)
    requires
        0 <= i < j < list.len() <= usize::MAX,
    ensures
        ranking(list, m)[i].index != ranking(list, m)[j].index,
{
    broadcast use vstd::seq_lib::group_to_multiset_ensures;

    let d = result_keys(list, m);
    let s = ranking(list, m);
    sorting::lemma_sorted_len(d);
    lemma_ranking_indexes(list, m);
    if s[i].index == s[j].index {
        assert(s.contains(s[i]) && s.contains(s[j]));
        assert(d.to_multiset().count(s[i]) > 0);
        assert(d.to_multiset().count(s[j]) > 0);
        assert(d.contains(s[i]) && d.contains(s[j]));
        let a = choose|a: int| 0 <= a < d.len() && d[a] == s[i];
        let b = choose|b: int| 0 <= b < d.len() && d[b] == s[j];
        assert(d[a].index == a && d[b].index == b);
        assert(s[i] == s[j]);
        lemma_twice(s, i, j);
        lemma_once(d, a);
        assert(false);
    }
}

proof fn lemma_twice<T>(s: Seq<T>, i: int, j: int)
    requires
        0 <= i < j < s.len(),
        s[i] == s[j],
    ensures
        s.to_multiset().count(s[i]) >= 2,
    decreases s.len(),
{
    broadcast use vstd::seq_lib::group_to_multiset_ensures;

    let d = s.drop_last();
    assert(s =~= d.push(s.last()));
    if j < d.len() {
        lemma_twice(d, i, j);
        assert(d[i] == s[i]);
    } else {
        assert(d[i] == s[i]);
        assert(d.contains(s[i]));
        assert(d.to_multiset().count(s[i]) > 0);
    }
}

proof fn lemma_once<T>(s: Seq<T>, i: int)
    requires
        0 <= i < s.len(),
        forall|a: int, b: int| 0 <= a < b < s.len() ==> #[trigger] s[a] != #[trigger] s[b],
    ensures
        s.to_multiset().count(s[i]) == 1,
    decreases s.len(),
{
    broadcast use vstd::seq_lib::group_to_multiset_ensures;

    let d = s.drop_last();
    assert(s =~= d.push(s.last()));
    assert forall|a: int, b: int| 0 <= a < b < d.len() implies #[trigger] d[a] != #[trigger] d[b] by {
        assert(s[a] != s[b]);
    }
    if i < d.len() {
        lemma_once(d, i);
        assert(d[i] == s[i]);
        assert(s[i] != s[s.len() - 1]);
    } else {
        if d.contains(s.last()) {
            let k = choose|k: int| 0 <= k < d.len() && d[k] == s.last();
            assert(s[k] != s[s.len() - 1]);
        }
        assert(d.to_multiset().count(s.last()) == 0);
    }
}

/// The runner-up is the cheapest of the other results; a result without any other has a
/// lead of one.
pub proof fn law_runner_up_is_the_next_cheapest<S: Scalar>(list: Seq<Alignment<S>>, m: nat, k: int)
    requires
        0 < list.len() <= usize::MAX,
        0 <= k < list.len(),
    ensures
        list.len() == 1 ==> second_norm(ranking(list, m)) == norm_cost(list[0], m).plus_spec(S::whole_spec(1)),
        list.len() > 1 && k != ranking(list, m)[0].index ==> second_norm(ranking(list, m)).rank() <= norm_cost(
            list[k],
            m,
        ).rank(),
        list.len() > 1 ==> exists|o: int|
            0 <= o < list.len() && o != ranking(list, m)[0].index && second_norm(ranking(list, m)) == norm_cost(
                #[trigger] list[o],
                m,
            ),
{
    broadcast use vstd::seq_lib::group_to_multiset_ensures;

    let d = result_keys(list, m);
    let s = ranking(list, m);
    sorting::lemma_sorted_len(d);
    sorting::law_sorted_is_in_order(d);
    lemma_ranking_indexes(list, m);
    assert(s[0].index < list.len());
    if list.len() > 1 {
        lemma_ranked_once(list, m, 0, 1);
        let o = s[1].index as int;
        assert(s[1].norm == norm_cost(list[o], m));
        if k != s[0].index {
            assert(d.contains(d[k]));
            assert(s.to_multiset().count(d[k]) > 0);
            assert(s.contains(d[k]));
            let j = choose|j: int| 0 <= j < s.len() && s[j] == d[k];
            assert(d[k].index == k);
            if j > 1 {
                assert(!sorting::key_before(s[j].key(), s[1].key()));
            }
        }
    }
}

/// A candidate is scored by the share of the weight of the words that it holds; words
/// without weight are shared out as if they weighed one.
pub proof fn law_scores_are_shares_of_the_weight<S: Scalar>(
    a: AlignmentAssetsV2<S>,
    words: Seq<Weighed<S>>,
    c: CandidateWindow<S>,
)
    ensures
        ({
            let found = found_weight(
                a,
                words,
                a.ref_token_ids.items().subrange(c.ref_start as int, c.ref_end as int),
            );
            let all = weight_sum(words);
            let r = scored(a, words, c);
            &&& S::whole_spec(0).rank() < all.rank() ==> r.quick_score == found.over_spec(all)
            &&& all.rank() <= S::whole_spec(0).rank() ==> r.quick_score == found.over_spec(S::whole_spec(1))
            &&& r.ref_start == c.ref_start && r.ref_end == c.ref_end
        }),
{
}

/// Each word adds its weight to the weight of all.
pub proof fn law_weights_add_up<S: Scalar>(words: Seq<Weighed<S>>, w: Weighed<S>)
    ensures
        weight_sum(Seq::<Weighed<S>>::empty()) == S::whole_spec(0),
        weight_sum(words.push(w)) == weight_sum(words).plus_spec(w.weight),
{
    assert(words.push(w).drop_last() =~= words);
}

} // verus!
