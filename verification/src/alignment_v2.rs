//! Finds the verses that a transcription recites.

use vstd::prelude::*;

use crate::assets::AlignmentAssetsV2;
use crate::candidates;
use crate::candidates::{CandidateWindow, SearchLimits};
use crate::chars;
use crate::clock;
use crate::dp;
use crate::dp::{Alignment, AlignmentResultV2};
use crate::json::Json;
use crate::scalar::Scalar;
use crate::scoring;
use crate::sorting;
use crate::spans;
use crate::spans::{AyahRef, AyahSegment, Mapping, Placement};
use crate::text;
use crate::timed;
use crate::timed::{Heard, TimeMode, TimedToken};

verus! {

/// Why a transcription could not be aligned.
#[derive(Clone, Copy, Debug, PartialEq, Eq, Structural)]
pub enum AlignError {
    NoTokens,
    /// The mode for correcting times cannot be applied.
    TimeMode(TimeMode),
    TooLong { transcript_tokens: usize, max_transcript_tokens: usize },
    NoCandidates,
    NoMappedTokens,
}

/// What an alignment found.
pub struct AlignmentReport<S> {
    pub version: String,
    pub confidence: S,
    pub start: AyahRef,
    pub end: AyahRef,
    pub time_base: String,
    pub time_base_s: S,
    pub debug: DebugCounts,
    /// How many candidates were aligned.
    pub candidates: usize,
    pub best_norm_cost: S,
    pub second_norm_cost: S,
    pub gap: S,
    pub match_ratio: S,
    pub best: AlignmentResultV2<S>,
    pub segments: Vec<AyahSegment<S>>,
    /// How many seconds it took.
    pub total_s: S,
}

/// How much of a transcript the search could use.
#[derive(Clone, Copy, Debug, PartialEq, Eq, Structural)]
pub struct DebugCounts {
    pub timed_tokens: usize,
    pub obs_nonzero: usize,
    pub obs_unknown: usize,
    pub obs_stop: usize,
    pub obs_effective: usize,
    pub obs_unique_effective: usize,
    pub query_words: usize,
    pub query_chars: usize,
}

/// The widths of the search.
pub open spec fn search_limits_spec() -> SearchLimits {
    SearchLimits {
        top_simhash: 80,
        top_anchor_offsets: 12,
        anchor_token_budget: 28,
        window_margin_ayahs: 10,
        window_margin_tokens: 450,
    }
}

pub fn search_limits() -> (r: SearchLimits)
    ensures
        r == search_limits_spec(),
{
    SearchLimits {
        top_simhash: 80,
        top_anchor_offsets: 12,
        anchor_token_budget: 28,
        window_margin_ayahs: 10,
        window_margin_tokens: 450,
    }
}

/// How many words a query may have.
pub const MAX_QUERY_WORDS: usize = 600;

/// The numbers of the heard words; zero for words outside the vocabulary.
pub open spec fn word_numbers<S: Scalar>(a: AlignmentAssetsV2<S>, h: Seq<Heard<S>>) -> Seq<u32> {
    h.map_values(
        |t: Heard<S>|
            match spans::number_of(a, t.simplified) {
                Some(id) => id,
                None => 0u32,
            },
    )
}

/// The text that is searched for: the normalized transcript where it is short
/// enough, else the beginning and the end of the heard words.
pub open spec fn query_of<S: Scalar>(transcript: Seq<char>, h: Seq<Heard<S>>) -> Seq<char> {
    let norm = text::normalized(transcript);
    if norm.len() > 0 && chars::words_of(norm).len() <= MAX_QUERY_WORDS {
        norm
    } else {
        chars::joined(timed::head_and_tail(timed::simplified_forms(h), MAX_QUERY_WORDS as nat), " "@)
    }
}

/// The candidates to align: scored, in order, and selected.
pub open spec fn chosen_candidates<S: Scalar>(
    a: AlignmentAssetsV2<S>,
    obs: Seq<u32>,
    list: Seq<CandidateWindow<S>>,
) -> Seq<CandidateWindow<S>> {
    let words = scoring::top_words(a, obs);
    scoring::selection(
        sorting::sorted(list.map_values(|c: CandidateWindow<S>| scoring::scored(a, words, c))),
    )
}

/// The alignments of the chosen candidates.
pub open spec fn chosen_alignments<S: Scalar>(
    a: AlignmentAssetsV2<S>,
    obs: Seq<u32>,
    list: Seq<CandidateWindow<S>>,
) -> Seq<Alignment<S>> {
    chosen_candidates(a, obs, list).map_values(|c: CandidateWindow<S>| scoring::aligned_in(a, obs, c))
}

/// The part of the reference from word `lo` to word `hi`, cut to the reference.
pub open spec fn last_word<S: Scalar>(a: AlignmentAssetsV2<S>, r: usize) -> int {
    let total = a.ref_token_ids.items().len();
    let max = if total == 0 {
        0
    } else {
        total - 1
    };
    if r > max {
        max
    } else {
        r as int
    }
}

/// What is reported for a list of candidates.
pub open spec fn is_report<S: Scalar>(
    a: AlignmentAssetsV2<S>,
    h: Seq<Heard<S>>,
    query: Seq<char>,
    time_base: Seq<char>,
    list: Seq<CandidateWindow<S>>,
    r: Result<AlignmentReport<S>, AlignError>,
) -> bool {
    let obs = word_numbers(a, h);
    let results = chosen_alignments(a, obs, list);
    let order = scoring::ranking(results, obs.len());
    let best = results[order[0].index as int];
    let best_norm = order[0].norm;
    let second = scoring::second_norm(order);
    let base_key = chars::lowercase(chars::trimmed(time_base));
    let base = spans::time_base_of(base_key);
    if list.len() == 0 {
        r == Err::<AlignmentReport<S>, AlignError>(AlignError::NoCandidates)
    } else {
        match spans::recited_extent(best.to_ref, best.is_match) {
            None => r == Err::<AlignmentReport<S>, AlignError>(AlignError::NoMappedTokens),
            Some(p) => {
                let x = Mapping {
                    a,
                    heard: h,
                    to_ref: best.to_ref,
                    is_match: best.is_match,
                    lo: last_word(a, p.0),
                    hi: last_word(a, p.1),
                };
                &&& r matches Ok(t)
                &&& t.version@ == a.version@
                &&& t.confidence == scoring::confidence_of(
                    best.matches as nat,
                    best.substitutions as nat,
                    best_norm,
                    second,
                    best.quick_score,
                )
                &&& t.start == spans::ayah_at(a, x.lo)
                &&& t.end == spans::ayah_at(a, x.hi)
                &&& t.time_base@ == base_key
                &&& t.time_base_s == spans::base_time(x, base)
                &&& t.debug == debug_counts(a, obs, query)
                &&& t.candidates == results.len()
                &&& t.best_norm_cost == best_norm
                &&& t.second_norm_cost == second
                &&& t.gap == scoring::cost_gap(best_norm, second)
                &&& t.match_ratio == scoring::match_ratio::<S>(best.matches as nat, best.substitutions as nat)
                &&& t.best@ == best
                &&& spans::segments_report(t.segments@, spans::recited_spans(x, base))
            },
        }
    }
}

/// How many of the first `k` heard words belong to the vocabulary.
pub open spec fn known_count(obs: Seq<u32>, k: nat) -> nat
    decreases k,
{
    if k == 0 {
        0
    } else {
        known_count(obs, (k - 1) as nat) + if obs[k - 1] == 0 {
            0nat
        } else {
            1nat
        }
    }
}

/// How many of the first `k` heard words are stop words.
pub open spec fn stop_count<S: Scalar>(a: AlignmentAssetsV2<S>, obs: Seq<u32>, k: nat) -> nat
    decreases k,
{
    if k == 0 {
        0
    } else {
        stop_count(a, obs, (k - 1) as nat) + if obs[k - 1] != 0 && candidates::is_stop(a, obs[k - 1]) {
            1nat
        } else {
            0nat
        }
    }
}

pub open spec fn debug_counts<S: Scalar>(a: AlignmentAssetsV2<S>, obs: Seq<u32>, query: Seq<char>) -> DebugCounts {
    let known = known_count(obs, obs.len());
    let stops = stop_count(a, obs, obs.len());
    DebugCounts {
        timed_tokens: obs.len() as usize,
        obs_nonzero: known as usize,
        obs_unknown: (obs.len() - known) as usize,
        obs_stop: stops as usize,
        obs_effective: (known - stops) as usize,
        obs_unique_effective: scoring::distinct_words(a, obs).len() as usize,
        query_words: chars::words_of(query).len() as usize,
        query_chars: query.len() as usize,
    }
}

proof fn lemma_counts<S: Scalar>(a: AlignmentAssetsV2<S>, obs: Seq<u32>, k: nat)
    ensures
        stop_count(a, obs, k) <= known_count(obs, k) <= k,
    decreases k,
{
    if k > 0 {
        lemma_counts(a, obs, (k - 1) as nat);
    }
}

proof fn lemma_distinct_len<S: Scalar>(a: AlignmentAssetsV2<S>, obs: Seq<u32>)
    ensures
        scoring::distinct_words(a, obs).len() <= obs.len(),
    decreases obs.len(),
{
    if obs.len() > 0 {
        lemma_distinct_len(a, obs.drop_last());
    }
}

/// Counts what the search could use of a transcript.
pub fn count_debug<S: Scalar>(a: &AlignmentAssetsV2<S>, obs: &[u32], query: &str) -> (r: DebugCounts)
    ensures
        r == debug_counts(*a, obs@, query@),
{
    let m: usize = obs.len();
    let mut known: usize = 0;
    let mut stops: usize = 0;
    let mut i: usize = 0;
    while i < m
        invariant
            m == obs@.len(),
            i <= m,
            known <= i,
            stops <= i,
            known == known_count(obs@, i as nat),
            stops == stop_count(*a, obs@, i as nat),
        decreases m - i,
    {
        let id: u32 = obs[i];
        if id != 0 {
            known = known + 1;
            if (id as usize) < a.stop_mask.len() && a.stop_mask[id as usize] {
                stops = stops + 1;
            }
        }
        i = i + 1;
    }
    proof {
        lemma_counts(*a, obs@, m as nat);
        lemma_distinct_len(*a, obs@);
    }
    let words = chars::split_words(query);
    assert(chars::views(words@).len() == words@.len());
    DebugCounts {
        timed_tokens: m,
        obs_nonzero: known,
        obs_unknown: m - known,
        obs_stop: stops,
        obs_effective: known - stops,
        obs_unique_effective: count_distinct(a, obs),
        query_words: words.len(),
        query_chars: query.unicode_len(),
    }
}

fn count_distinct<S: Scalar>(a: &AlignmentAssetsV2<S>, obs: &[u32]) -> (r: usize)
    ensures
        r == scoring::distinct_words(*a, obs@).len(),
{
    scoring::find_distinct_words(a, obs).len()
}

/// The number of each heard word.
pub fn number_words<S: Scalar>(a: &AlignmentAssetsV2<S>, tokens: &[TimedToken<S>]) -> (r: Vec<u32>)
    ensures
        r@ == word_numbers(*a, timed::heard(tokens@)),
{
    let ghost want = word_numbers(*a, timed::heard(tokens@));
    let mut out: Vec<u32> = Vec::new();
    let mut i: usize = 0;
    while i < tokens.len()
        invariant
            i <= tokens@.len(),
            want == word_numbers(*a, timed::heard(tokens@)),
            out@ == want.take(i as int),
        decreases tokens@.len() - i,
    {
        let id: u32 = match a.token_to_id.get(tokens[i].simplified.as_str()) {
            Some(id) => *id,
            None => 0,
        };
        out.push(id);
        assert(out@ =~= want.take(i as int + 1));
        i = i + 1;
    }
    assert(out@ =~= want);
    out
}

/// The text to search for.
pub fn make_query<S: Scalar>(transcript_text: &str, tokens: &[TimedToken<S>]) -> (r: String)
    ensures
        r@ == query_of(transcript_text@, timed::heard(tokens@)),
{
    let norm = text::normalize_arabic(transcript_text);
    let words = chars::split_words(norm.as_str());
    assert(chars::views(words@).len() == words@.len());
    if !text::is_blank(norm.as_str()) && words.len() <= MAX_QUERY_WORDS {
        norm
    } else {
        timed::build_query_text(tokens, MAX_QUERY_WORDS)
    }
}

proof fn lemma_chosen<S: Scalar>(a: AlignmentAssetsV2<S>, obs: Seq<u32>, list: Seq<CandidateWindow<S>>)
    requires
        scoring::all_lie_in(a, list),
    ensures
        scoring::all_lie_in(a, chosen_candidates(a, obs, list)),
        list.len() > 0 ==> chosen_candidates(a, obs, list).len() > 0,
        chosen_candidates(a, obs, list).len() <= scoring::MAX_KEEP,
{
    broadcast use vstd::seq_lib::group_to_multiset_ensures;

    let words = scoring::top_words(a, obs);
    let scored = list.map_values(|c: CandidateWindow<S>| scoring::scored(a, words, c));
    let order = sorting::sorted(scored);
    let chosen = chosen_candidates(a, obs, list);
    sorting::lemma_sorted_len(scored);
    scoring::law_selection_is_bounded(order);
    assert forall|k: int| 0 <= k < chosen.len() implies scoring::lies_in(a, #[trigger] chosen[k]) by {
        assert(order.contains(chosen[k]));
        assert(order.to_multiset().count(chosen[k]) > 0);
        assert(scored.to_multiset().count(chosen[k]) > 0);
        assert(scored.contains(chosen[k]));
        let j = choose|j: int| 0 <= j < scored.len() && scored[j] == chosen[k];
        assert(scoring::lies_in(a, list[j]));
    }
}

/// Aligns the heard words with the best of a list of candidates. The time that it
/// takes is not measured.
#[verifier::rlimit(60)]
pub fn align_with_candidates<S: Scalar>(
    a: &AlignmentAssetsV2<S>,
    tokens: &[TimedToken<S>],
    query: &str,
    time_base: &str,
    list: &[CandidateWindow<S>],
) -> (r: Result<AlignmentReport<S>, AlignError>)
    requires
        a.wf(),
        tokens@.len() < i32::MAX,
        scoring::all_lie_in(*a, list@),
    ensures
        is_report(*a, timed::heard(tokens@), query@, time_base@, list@, r),
        r matches Ok(t) ==> t.total_s == S::whole_spec(0),
{
    if list.len() == 0 {
        return Err(AlignError::NoCandidates);
    }
    let ghost h = timed::heard(tokens@);
    assert(h.len() == tokens@.len());
    let obs = number_words(a, tokens);
    let words = scoring::find_top_words(a, &obs);
    let scored = scoring::score_candidates(a, &words, list);
    let order = sorting::sort(&scored);
    let chosen = scoring::select_candidates(&order);
    proof {
        lemma_chosen(*a, obs@, list@);
        assert(chosen@ == chosen_candidates(*a, obs@, list@));
    }
    let results = scoring::align_candidates(a, &obs, chosen);
    let ghost all = chosen_alignments(*a, obs@, list@);
    assert(scoring::alignments(results@) == all);
    assert(all.len() == results@.len());
    let ranks = scoring::rank_results(&results, obs.len());
    proof {
        scoring::lemma_ranking_indexes(all, obs@.len());
    }
    let at: usize = ranks[0].index;
    let best_norm: S = ranks[0].norm;
    let second: S = if ranks.len() > 1 {
        ranks[1].norm
    } else {
        best_norm.plus(S::whole(1))
    };
    let count: usize = results.len();
    let mut results = results;
    let ghost c = chosen_candidates(*a, obs@, list@)[at as int];
    proof {
        assert(scoring::lies_in(*a, c));
        assert(all[at as int] == results@[at as int]@);
        assert(all[at as int] == scoring::aligned_in(*a, obs@, c));
        let t = dp::task_of(
            obs@,
            scoring::stretch(*a, c),
            c.ref_start as int,
            c.expected_offset as int,
            scoring::band_for(obs@.len() as int),
            a.confusions,
            a.id_to_token@,
        );
        dp::law_alignment_is_consistent(t, c.ref_start as int, c.expected_offset as int);
    }
    let best = results.swap_remove(at);
    assert(best@ == all[at as int]);
    let total: usize = a.total_tokens();
    match spans::find_recited(&best.transcript_to_ref, &best.transcript_is_match) {
        None => Err(AlignError::NoMappedTokens),
        Some(p) => {
            proof {
                let bound = total as int;
                assert forall|i: int|
                    0 <= i < best.transcript_to_ref@.len() && (#[trigger] best.transcript_to_ref@[i]) is Some implies best.transcript_to_ref@[i]->0
                    < bound by {
                }
                spans::lemma_extent(
                    best.transcript_to_ref@,
                    best.transcript_is_match@,
                    true,
                    best.transcript_to_ref@.len(),
                    bound,
                );
                spans::lemma_extent(
                    best.transcript_to_ref@,
                    best.transcript_is_match@,
                    false,
                    best.transcript_to_ref@.len(),
                    bound,
                );
            }
            let lo: usize = p.0;
            let hi: usize = p.1;
            let key = chars::to_lower(chars::trim(time_base).as_str());
            let base = spans::read_time_base(key.as_str());
            let place = Placement {
                a,
                tokens,
                to_ref: &best.transcript_to_ref,
                is_match: &best.transcript_is_match,
                lo,
                hi,
            };
            let zero: S = place.find_base(base);
            let found = place.find_spans(base);
            let segments = spans::report_spans(&found);
            Ok(
                AlignmentReport {
                    version: a.version.clone(),
                    confidence: scoring::judge(
                        best.matches,
                        best.substitutions,
                        best_norm,
                        second,
                        best.quick_score,
                    ),
                    start: spans::verse_at(a, lo),
                    end: spans::verse_at(a, hi),
                    time_base: key,
                    time_base_s: zero,
                    debug: count_debug(a, &obs, query),
                    candidates: count,
                    best_norm_cost: best_norm,
                    second_norm_cost: second,
                    gap: scoring::gap_of(best_norm, second),
                    match_ratio: scoring::share_of_hits(best.matches, best.substitutions),
                    best,
                    segments,
                    total_s: S::whole(0),
                },
            )
        },
    }
}

/// What is reported for the segments of a transcription, up to the order in which the search
/// walks its maps and the time that it takes.
pub open spec fn is_outcome<S: Scalar>(
    segs: Seq<Json<S>>,
    transcript_text: Seq<char>,
    a: AlignmentAssetsV2<S>,
    time_base: Seq<char>,
    mode: TimeMode,
    max_transcript_tokens: usize,
    r: Result<AlignmentReport<S>, AlignError>,
) -> bool {
    let words = timed::segments_heard(segs, segs.len());
    if words.len() == 0 {
        r == Err::<AlignmentReport<S>, AlignError>(AlignError::NoTokens)
    } else {
        match timed::upgraded(words, mode) {
            None => r == Err::<AlignmentReport<S>, AlignError>(AlignError::TimeMode(mode)),
            Some(h) => if max_transcript_tokens > 0 && h.len() > max_transcript_tokens {
                r == Err::<AlignmentReport<S>, AlignError>(
                    AlignError::TooLong { transcript_tokens: h.len() as usize, max_transcript_tokens },
                )
            } else {
                &&& r matches Ok(t) ==> clock::is_elapsed(t.total_s)
                &&& exists|list: Seq<CandidateWindow<S>>|
                    {
                        &&& candidates::is_candidates(
                            a,
                            word_numbers(a, h),
                            query_of(transcript_text, h),
                            search_limits_spec(),
                            list,
                        )
                        &&& #[trigger] is_report(a, h, query_of(transcript_text, h), time_base, list, r)
                    }
            },
        }
    }
}

proof fn lemma_upgraded_len<S: Scalar>(h: Seq<Heard<S>>, mode: TimeMode)
    ensures
        timed::upgraded(h, mode) matches Some(u) ==> u.len() == h.len(),
{
    timed::law_smoothed_words_follow_each_other(h);
}

/// Finds the verses that a transcription recites. How a transcription is spelled
/// out bounds the number of its words; it has to stay within an `i32`.
pub fn guess_ayah_alignment_v2_from_transcription<S: Scalar>(
    transcription: &Json<S>,
    transcript_text: &str,
    assets: &AlignmentAssetsV2<S>,
    time_base: &str,
    word_time_upgrade: &str,
    max_transcript_tokens: usize,
) -> (r: Result<AlignmentReport<S>, AlignError>)
    requires
        assets.wf(),
        timed::transcription_size(*transcription) < i32::MAX,
    ensures
        is_outcome(
            timed::segments_in(*transcription),
            transcript_text@,
            *assets,
            time_base@,
            timed::time_mode_of(chars::lowercase(chars::trimmed(word_time_upgrade@))),
            max_transcript_tokens,
            r,
        ),
{
    let mode = timed::read_time_mode(chars::to_lower(chars::trim(word_time_upgrade).as_str()).as_str());
    match transcription.get("segments") {
        Some(Json::List(segs)) => guess_for_segments(
            segs,
            transcript_text,
            assets,
            time_base,
            mode,
            max_transcript_tokens,
        ),
        _ => Err(AlignError::NoTokens),
    }
}

/// Finds the verses that segments of a transcription recite, with times
/// corrected as `mode` says.
pub fn guess_for_segments<S: Scalar>(
    segs: &[Json<S>],
    transcript_text: &str,
    assets: &AlignmentAssetsV2<S>,
    time_base: &str,
    mode: TimeMode,
    max_transcript_tokens: usize,
) -> (r: Result<AlignmentReport<S>, AlignError>)
    requires
        assets.wf(),
        timed::size_bound(segs@, segs@.len()) < i32::MAX,
    ensures
        is_outcome(segs@, transcript_text@, *assets, time_base@, mode, max_transcript_tokens, r),
{
    let started = clock::now();
    proof {
        timed::law_words_within_size(segs@);
    }
    let words = timed::extract_from_segments(segs);
    if words.len() == 0 {
        return Err(AlignError::NoTokens);
    }
    proof {
        lemma_upgraded_len(timed::heard(words@), mode);
    }
    let tokens = match timed::upgrade_with_mode(words, mode) {
        Err(m) => return Err(AlignError::TimeMode(m)),
        Ok(v) => v,
    };
    let ghost h = timed::heard(tokens@);
    assert(h.len() == tokens@.len());
    let m: usize = tokens.len();
    if max_transcript_tokens > 0 && m > max_transcript_tokens {
        return Err(AlignError::TooLong { transcript_tokens: m, max_transcript_tokens });
    }
    let obs = number_words(assets, &tokens);
    let query = make_query(transcript_text, &tokens);
    let list = candidates::generate_candidates(assets, &obs, query.as_str(), search_limits());
    proof {
        candidates::law_candidates_lie_in_the_reference(
            *assets,
            obs@,
            query@,
            search_limits_spec(),
            list@,
        );
        assert forall|k: int| 0 <= k < list@.len() implies scoring::lies_in(*assets, #[trigger] list@[k]) by {
        }
    }
    match align_with_candidates(assets, &tokens, query.as_str(), time_base, &list) {
        Err(e) => Err(e),
        Ok(t) => {
            let ghost before = t;
            let mut t = t;
            t.total_s = clock::seconds_since(&started);
            let r = Ok(t);
            assert(is_report(*assets, h, query@, time_base@, list@, Ok(before)));
            assert(is_report(*assets, h, query@, time_base@, list@, r));
            r
        },
    }
}

// ---------------------------------------------------------------------------
// Laws

/// A report names the verse of the first reference word that was hit as the start, and
/// that of the last one as the end; where none was hit, those of the words that are
/// paired.
pub proof fn law_report_names_the_recited_verses<S: Scalar>(
    a: AlignmentAssetsV2<S>,
    h: Seq<Heard<S>>,
    query: Seq<char>,
    time_base: Seq<char>,
    list: Seq<CandidateWindow<S>>,
    t: AlignmentReport<S>,
)
    requires
        is_report(a, h, query, time_base, list, Ok(t)),
        t.best@.to_ref.len() == t.best@.is_match.len(),
        forall|i: int|
            0 <= i < t.best@.to_ref.len() && (#[trigger] t.best@.to_ref[i]) is Some ==> t.best@.to_ref[i]->0
                < a.ref_token_ids.items().len(),
    ensures
        ({
            let to = t.best@.to_ref;
            let hit = t.best@.is_match;
            let any_hit = exists|i: int| 0 <= i < to.len() && (#[trigger] to[i]) is Some && hit[i];
            &&& exists|i: int|
                {
                    &&& 0 <= i < to.len() && (#[trigger] to[i]) is Some && (any_hit ==> hit[i])
                    &&& t.start.surah == a.ref_surah_id.items()[to[i]->0 as int]
                    &&& t.start.ayah == a.ref_ayah_num.items()[to[i]->0 as int]
                    &&& forall|j: int|
                        0 <= j < to.len() && (#[trigger] to[j]) is Some && (any_hit ==> hit[j]) ==> to[i]->0 <= to[j]->0
                }
            &&& exists|i: int|
                {
                    &&& 0 <= i < to.len() && (#[trigger] to[i]) is Some && (any_hit ==> hit[i])
                    &&& t.end.surah == a.ref_surah_id.items()[to[i]->0 as int]
                    &&& t.end.ayah == a.ref_ayah_num.items()[to[i]->0 as int]
                    &&& forall|j: int|
                        0 <= j < to.len() && (#[trigger] to[j]) is Some && (any_hit ==> hit[j]) ==> to[j]->0 <= to[i]->0
                }
        }),
{
    let to = t.best@.to_ref;
    let hit = t.best@.is_match;
    spans::law_recited_range_holds_the_hits(to, hit);
    let p = spans::recited_extent(to, hit)->0;
    let any_hit = exists|i: int| 0 <= i < to.len() && (#[trigger] to[i]) is Some && hit[i];
    let i = choose|i: int| 0 <= i < to.len() && #[trigger] to[i] == Some(p.0) && (any_hit ==> hit[i]);
    assert(to[i] is Some);
    let j = choose|i: int| 0 <= i < to.len() && #[trigger] to[i] == Some(p.1) && (any_hit ==> hit[i]);
    assert(to[j] is Some);
}

/// The candidates that are searched for: the 80 nearest passages with ten verses around
/// them, and up to twelve offsets from the 28 weightiest words, each with 450 words to
/// either side.
pub proof fn law_search_is_this_wide<S: Scalar>(
    a: AlignmentAssetsV2<S>,
    m: int,
    query: Seq<char>,
    off: i32,
    r: int,
)
    requires
        query.len() > 0,
        0 < a.passages_simhash64.items().len() <= usize::MAX,
        0 <= m <= i32::MAX,
        a.ref_token_ids.items().len() <= i32::MAX,
    ensures
        ({
            let n = a.passages_simhash64.items().len();
            let total = a.ref_token_ids.items().len() as int;
            let w = candidates::anchor_window::<S>(total, m, off, search_limits_spec());
            &&& candidates::passage_windows(a, m, query, search_limits_spec()).len() == (if n < 80 {
                n
            } else {
                80
            })
            &&& 0 <= r < total ==> (w.ref_start <= r < w.ref_end <==> off - 450 <= r < off + m + 450)
            &&& search_limits_spec().top_anchor_offsets == 12 && search_limits_spec().anchor_token_budget == 28
                && search_limits_spec().window_margin_ayahs == 10
        }),
{
    sorting::lemma_sorted_len(candidates::distances(a.passages_simhash64.items(), text::simhash_of(query)));
    if 0 <= r < a.ref_token_ids.items().len() {
        candidates::law_anchor_windows_lie_around_the_offset::<S>(
            a.ref_token_ids.items().len() as int,
            m,
            off,
            search_limits_spec(),
            r,
        );
    }
}

/// The query is the transcript in normal form, if it has up to six hundred words; of a
/// longer one, or where there is no text, the first and last heard words, six hundred at
/// most.
pub proof fn law_queries_are_bounded<S: Scalar>(transcript: Seq<char>, h: Seq<Heard<S>>)
    ensures
        ({
            let norm = text::normalized(transcript);
            let forms = timed::simplified_forms(h);
            &&& norm.len() > 0 && chars::words_of(norm).len() <= 600 ==> query_of(transcript, h) == norm
            &&& norm.len() == 0 || chars::words_of(norm).len() > 600 ==> query_of(transcript, h) == chars::joined(
                if forms.len() <= 600 {
                    forms
                } else {
                    forms.take(300) + forms.skip(forms.len() - 300)
                },
                " "@,
            )
        }),
{
}

/// Without words there is nothing to align; too many are refused, and told how many they
/// are.
pub proof fn law_refusals_tell_the_reason<S: Scalar>(
    segs: Seq<Json<S>>,
    transcript_text: Seq<char>,
    a: AlignmentAssetsV2<S>,
    time_base: Seq<char>,
    mode: TimeMode,
    max_transcript_tokens: usize,
    r: Result<AlignmentReport<S>, AlignError>,
)
    requires
        is_outcome(segs, transcript_text, a, time_base, mode, max_transcript_tokens, r),
    ensures
        ({
            let words = timed::segments_heard(segs, segs.len());
            &&& words.len() == 0 <==> r == Err::<AlignmentReport<S>, AlignError>(AlignError::NoTokens)
            &&& words.len() > 0 && timed::upgraded(words, mode) is None <==> (r matches Err(AlignError::TimeMode(_)))
            &&& (r matches Err(AlignError::TooLong { transcript_tokens, max_transcript_tokens: max })) <==> words.len() > 0
                && (timed::upgraded(words, mode) matches Some(h) && 0 < max_transcript_tokens < h.len())
            &&& r matches Err(AlignError::TooLong { transcript_tokens, max_transcript_tokens: max }) ==> {
                &&& max == max_transcript_tokens
                &&& timed::upgraded(words, mode) matches Some(h) && (h.len() <= usize::MAX ==> transcript_tokens
                    == h.len())
            }
        }),
{
}

/// Each word that was heard is known, unknown, or known but stopped.
pub proof fn law_heard_words_are_counted<S: Scalar>(a: AlignmentAssetsV2<S>, obs: Seq<u32>, query: Seq<char>)
    requires
        obs.len() <= usize::MAX,
    ensures
        ({
            let d = debug_counts(a, obs, query);
            &&& d.timed_tokens == obs.len()
            &&& d.obs_nonzero == obs.filter(|id: u32| id != 0).len()
            &&& d.obs_unknown == obs.filter(|id: u32| id == 0).len()
            &&& d.obs_stop == obs.filter(|id: u32| id != 0 && candidates::is_stop(a, id)).len()
            &&& d.obs_effective == obs.filter(|id: u32| id != 0 && !candidates::is_stop(a, id)).len()
        }),
{
    lemma_counted_words(a, obs, obs.len());
    assert(obs.take(obs.len() as int) =~= obs);
}

proof fn lemma_counted_words<S: Scalar>(a: AlignmentAssetsV2<S>, obs: Seq<u32>, k: nat)
    requires
        k <= obs.len(),
    ensures
        ({
            let part = obs.take(k as int);
            let unknown = part.filter(|id: u32| id == 0).len();
            let effective = part.filter(|id: u32| id != 0 && !candidates::is_stop(a, id)).len();
            &&& known_count(obs, k) == part.filter(|id: u32| id != 0).len()
            &&& stop_count(a, obs, k) == part.filter(|id: u32| id != 0 && candidates::is_stop(a, id)).len()
            &&& known_count(obs, k) + unknown == k
            &&& stop_count(a, obs, k) + effective == known_count(obs, k)
        }),
    decreases k,
{
    reveal(Seq::filter);
    if k > 0 {
        lemma_counted_words(a, obs, (k - 1) as nat);
        assert(obs.take(k as int).drop_last() =~= obs.take(k - 1));
        assert(obs.take(k as int).last() == obs[k - 1]);
    }
}

} // verus!
