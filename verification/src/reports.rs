//! Alignments as JSON documents.

use vstd::prelude::*;

use crate::alignment_v2::{AlignError, AlignmentReport, DebugCounts};
use crate::chars;
use crate::dp::Source;
use crate::json;
use crate::json::Json;
use crate::multispan::{JumpEvent, SpanCandidate, SpanReport};
use crate::scalar::Scalar;
use crate::spans;
use crate::spans::{AyahRef, AyahSegment};
use crate::timed::TimeMode;
use crate::tree;
use crate::tree::Tree;

verus! {

/// Whether a variable of the environment asks for details; `value` is its text.
pub fn wants_debug(value: Option<&str>) -> (r: bool)
    ensures
        r == (value matches Some(v) && json::on_word(chars::lowercase(chars::trimmed(v@)))),
{
    match value {
        Some(v) => json::is_on_word(chars::to_lower(chars::trim(v).as_str()).as_str()),
        None => false,
    }
}

// ---------------------------------------------------------------------------
// Parts

pub open spec fn verse_tree<S: Scalar>(v: AyahRef) -> Tree<S> {
    Tree::Object(
        seq![
            ("ayah_key"@, Tree::Text(spans::verse_text(v))),
            ("surah_id"@, tree::count_tree(v.surah as u64)),
            ("ayah_num"@, tree::count_tree(v.ayah as u64)),
        ],
    )
}

pub fn verse_value<S: Scalar>(v: AyahRef) -> (r: Json<S>)
    ensures
        tree::tree_of(r) == verse_tree::<S>(v),
{
    let mut e: Vec<(String, Json<S>)> = Vec::new();
    tree::put(&mut e, "ayah_key", tree::text(spans::verse_label(v).as_str()));
    tree::put(&mut e, "surah_id", tree::count(v.surah as u64));
    tree::put(&mut e, "ayah_num", tree::count(v.ayah as u64));
    assert(tree::entries_of(e@) =~= verse_tree::<S>(v)->Object_0);
    Json::Object(e)
}

pub open spec fn opt_verse_tree<S: Scalar>(v: Option<AyahRef>) -> Tree<S> {
    match v {
        Some(x) => verse_tree(x),
        None => Tree::Null,
    }
}

pub fn opt_verse_value<S: Scalar>(v: Option<AyahRef>) -> (r: Json<S>)
    ensures
        tree::tree_of(r) == opt_verse_tree::<S>(v),
{
    match v {
        Some(x) => verse_value(x),
        None => Json::Null,
    }
}

pub open spec fn segment_tree<S: Scalar>(x: AyahSegment<S>) -> Tree<S> {
    Tree::Object(
        seq![
            ("ayah_key"@, Tree::Text(x.ayah_key@)),
            ("surah_id"@, tree::count_tree(x.surah_id as u64)),
            ("ayah_num"@, tree::count_tree(x.ayah_num as u64)),
            ("start_s"@, tree::opt_real_tree(x.start_s)),
            ("end_s"@, tree::opt_real_tree(x.end_s)),
            ("start_ts"@, tree::opt_text_tree(x.start_ts)),
            ("end_ts"@, tree::opt_text_tree(x.end_ts)),
            ("token_count"@, tree::count_tree(x.token_count as u64)),
            ("match_count"@, tree::count_tree(x.match_count as u64)),
            ("estimated_time"@, Tree::Bool(x.estimated_time)),
        ],
    )
}

pub fn segment_value<S: Scalar>(x: &AyahSegment<S>) -> (r: Json<S>)
    ensures
        tree::tree_of(r) == segment_tree(*x),
{
    let mut e: Vec<(String, Json<S>)> = Vec::new();
    tree::put(&mut e, "ayah_key", tree::text(x.ayah_key.as_str()));
    tree::put(&mut e, "surah_id", tree::count(x.surah_id as u64));
    tree::put(&mut e, "ayah_num", tree::count(x.ayah_num as u64));
    tree::put(&mut e, "start_s", tree::opt_real(x.start_s));
    tree::put(&mut e, "end_s", tree::opt_real(x.end_s));
    tree::put(&mut e, "start_ts", tree::opt_text(&x.start_ts));
    tree::put(&mut e, "end_ts", tree::opt_text(&x.end_ts));
    tree::put(&mut e, "token_count", tree::count(x.token_count as u64));
    tree::put(&mut e, "match_count", tree::count(x.match_count as u64));
    tree::put(&mut e, "estimated_time", Json::Bool(x.estimated_time));
    assert(tree::entries_of(e@) =~= segment_tree(*x)->Object_0);
    Json::Object(e)
}

pub open spec fn segment_trees<S: Scalar>(segs: Seq<AyahSegment<S>>) -> Seq<Tree<S>> {
    segs.map_values(|x: AyahSegment<S>| segment_tree(x))
}

fn segment_values<S: Scalar>(segs: &[AyahSegment<S>]) -> (r: Vec<Json<S>>)
    ensures
        tree::trees_of(r@) == segment_trees(segs@),
{
    let ghost all = segment_trees(segs@);
    let mut out: Vec<Json<S>> = Vec::new();
    let mut i: usize = 0;
    assert(all.take(0) =~= Seq::<Tree<S>>::empty());
    while i < segs.len()
        invariant
            i <= segs@.len(),
            all == segment_trees(segs@),
            tree::trees_of(out@) == all.take(i as int),
        decreases segs@.len() - i,
    {
        tree::add_item(&mut out, segment_value(&segs[i]));
        assert(all.take(i as int + 1) =~= all.take(i as int).push(all[i as int]));
        i = i + 1;
    }
    assert(all.take(i as int) =~= all);
    out
}

pub open spec fn debug_tree<S: Scalar>(d: DebugCounts) -> Tree<S> {
    Tree::Object(
        seq![
            ("timed_tokens"@, tree::count_tree(d.timed_tokens as u64)),
            ("obs_nonzero"@, tree::count_tree(d.obs_nonzero as u64)),
            ("obs_unknown"@, tree::count_tree(d.obs_unknown as u64)),
            ("obs_stop"@, tree::count_tree(d.obs_stop as u64)),
            ("obs_effective"@, tree::count_tree(d.obs_effective as u64)),
            ("obs_unique_effective"@, tree::count_tree(d.obs_unique_effective as u64)),
            ("query_words"@, tree::count_tree(d.query_words as u64)),
            ("query_chars"@, tree::count_tree(d.query_chars as u64)),
        ],
    )
}

fn debug_value<S: Scalar>(d: DebugCounts) -> (r: Json<S>)
    ensures
        tree::tree_of(r) == debug_tree::<S>(d),
{
    let mut e: Vec<(String, Json<S>)> = Vec::new();
    tree::put(&mut e, "timed_tokens", tree::count(d.timed_tokens as u64));
    tree::put(&mut e, "obs_nonzero", tree::count(d.obs_nonzero as u64));
    tree::put(&mut e, "obs_unknown", tree::count(d.obs_unknown as u64));
    tree::put(&mut e, "obs_stop", tree::count(d.obs_stop as u64));
    tree::put(&mut e, "obs_effective", tree::count(d.obs_effective as u64));
    tree::put(&mut e, "obs_unique_effective", tree::count(d.obs_unique_effective as u64));
    tree::put(&mut e, "query_words", tree::count(d.query_words as u64));
    tree::put(&mut e, "query_chars", tree::count(d.query_chars as u64));
    assert(tree::entries_of(e@) =~= debug_tree::<S>(d)->Object_0);
    Json::Object(e)
}

/// The word for where a candidate came from; empty for an alignment without one.
pub open spec fn source_word(s: Option<Source>) -> Seq<char> {
    match s {
        Some(Source::Anchor) => "anchor"@,
        Some(Source::Embed) => "embed"@,
        Some(Source::Simhash) => "simhash"@,
        None => ""@,
    }
}

pub fn name_source(s: Option<Source>) -> (r: &'static str)
    ensures
        r@ == source_word(s),
{
    match s {
        Some(Source::Anchor) => "anchor",
        Some(Source::Embed) => "embed",
        Some(Source::Simhash) => "simhash",
        None => "",
    }
}

// ---------------------------------------------------------------------------
// An alignment

pub open spec fn query_tree<S: Scalar>(t: AlignmentReport<S>) -> Tree<S> {
    Tree::Object(
        seq![
            ("candidates"@, tree::count_tree(t.candidates as u64)),
            ("best_norm_cost"@, tree::real_tree(t.best_norm_cost)),
            ("second_norm_cost"@, tree::real_tree(t.second_norm_cost)),
            ("gap"@, tree::real_tree(t.gap)),
            ("quick_score"@, tree::real_tree(t.best.quick_score)),
            ("candidate_source"@, Tree::Text(source_word(t.best.candidate_source))),
        ],
    )
}

fn query_value<S: Scalar>(t: &AlignmentReport<S>) -> (r: Json<S>)
    ensures
        tree::tree_of(r) == query_tree(*t),
{
    let mut e: Vec<(String, Json<S>)> = Vec::new();
    tree::put(&mut e, "candidates", tree::count(t.candidates as u64));
    tree::put(&mut e, "best_norm_cost", tree::number(t.best_norm_cost));
    tree::put(&mut e, "second_norm_cost", tree::number(t.second_norm_cost));
    tree::put(&mut e, "gap", tree::number(t.gap));
    tree::put(&mut e, "quick_score", tree::number(t.best.quick_score));
    tree::put(&mut e, "candidate_source", tree::text(name_source(t.best.candidate_source)));
    assert(tree::entries_of(e@) =~= query_tree(*t)->Object_0);
    Json::Object(e)
}

pub open spec fn counts_tree<S: Scalar>(t: AlignmentReport<S>) -> Tree<S> {
    Tree::Object(
        seq![
            ("cost"@, tree::real_tree(t.best.cost)),
            ("norm_cost"@, tree::real_tree(t.best_norm_cost)),
            ("matches"@, tree::count_tree(t.best.matches as u64)),
            ("substitutions"@, tree::count_tree(t.best.substitutions as u64)),
            ("deletions"@, tree::count_tree(t.best.deletions as u64)),
            ("insertions"@, tree::count_tree(t.best.insertions as u64)),
            ("match_ratio"@, tree::real_tree(t.match_ratio)),
        ],
    )
}

fn counts_value<S: Scalar>(t: &AlignmentReport<S>) -> (r: Json<S>)
    ensures
        tree::tree_of(r) == counts_tree(*t),
{
    let mut e: Vec<(String, Json<S>)> = Vec::new();
    tree::put(&mut e, "cost", tree::number(t.best.cost));
    tree::put(&mut e, "norm_cost", tree::number(t.best_norm_cost));
    tree::put(&mut e, "matches", tree::count(t.best.matches as u64));
    tree::put(&mut e, "substitutions", tree::count(t.best.substitutions as u64));
    tree::put(&mut e, "deletions", tree::count(t.best.deletions as u64));
    tree::put(&mut e, "insertions", tree::count(t.best.insertions as u64));
    tree::put(&mut e, "match_ratio", tree::number(t.match_ratio));
    assert(tree::entries_of(e@) =~= counts_tree(*t)->Object_0);
    Json::Object(e)
}

/// An object of one entry.
pub open spec fn single<S>(key: Seq<char>, v: Tree<S>) -> Tree<S> {
    Tree::Object(seq![(key, v)])
}

pub fn single_value<S: Scalar>(key: &str, v: Json<S>) -> (r: Json<S>)
    ensures
        tree::tree_of(r) == single(key@, tree::tree_of(v)),
{
    let mut e: Vec<(String, Json<S>)> = Vec::new();
    tree::put(&mut e, key, v);
    Json::Object(e)
}

/// An alignment, with the counts of the search if they are asked for.
pub open spec fn report_tree<S: Scalar>(t: AlignmentReport<S>, debug: bool) -> Tree<S> {
    Tree::Object(
        seq![
            ("method"@, Tree::Text("v2_embedding+anchors+noisy_dp"@)),
            ("version"@, Tree::Text(t.version@)),
            ("confidence"@, tree::real_tree(t.confidence)),
            ("start"@, verse_tree(t.start)),
            ("end"@, verse_tree(t.end)),
            ("time_base"@, Tree::Text(t.time_base@)),
            ("time_base_s"@, tree::real_tree(t.time_base_s)),
            (
                "debug"@,
                if debug {
                    debug_tree(t.debug)
                } else {
                    Tree::Null
                },
            ),
            ("query"@, query_tree(t)),
            ("alignment"@, counts_tree(t)),
            ("timing"@, single("total_s"@, tree::real_tree(t.total_s))),
            ("segments"@, Tree::List(segment_trees(t.segments@))),
        ],
    )
}

pub fn report_value<S: Scalar>(t: &AlignmentReport<S>, debug: bool) -> (r: Json<S>)
    ensures
        tree::tree_of(r) == report_tree(*t, debug),
{
    let counts: Json<S> = if debug {
        debug_value(t.debug)
    } else {
        Json::Null
    };
    let mut e: Vec<(String, Json<S>)> = Vec::new();
    tree::put(&mut e, "method", tree::text("v2_embedding+anchors+noisy_dp"));
    tree::put(&mut e, "version", tree::text(t.version.as_str()));
    tree::put(&mut e, "confidence", tree::number(t.confidence));
    tree::put(&mut e, "start", verse_value(t.start));
    tree::put(&mut e, "end", verse_value(t.end));
    tree::put(&mut e, "time_base", tree::text(t.time_base.as_str()));
    tree::put(&mut e, "time_base_s", tree::number(t.time_base_s));
    tree::put(&mut e, "debug", counts);
    tree::put(&mut e, "query", query_value(t));
    tree::put(&mut e, "alignment", counts_value(t));
    tree::put(&mut e, "timing", single_value("total_s", tree::number(t.total_s)));
    tree::put(&mut e, "segments", Json::List(segment_values(&t.segments)));
    assert(tree::entries_of(e@) =~= report_tree(*t, debug)->Object_0);
    Json::Object(e)
}

/// What went wrong; `mode` is the text that named the mode for correcting times.
pub open spec fn error_text(e: AlignError, mode: Seq<char>) -> Seq<char> {
    match e {
        AlignError::NoTokens => "no tokens found in transcription"@,
        AlignError::TimeMode(TimeMode::Forced) =>
            "word_time_upgrade failed: word_time_upgrade=whisperx is not implemented"@,
        AlignError::TimeMode(_) => "word_time_upgrade failed: unknown word_time_upgrade mode: "@ + mode,
        AlignError::TooLong { transcript_tokens, max_transcript_tokens } => "transcript too long for alignment"@,
        AlignError::NoCandidates => "no candidates generated"@,
        AlignError::NoMappedTokens => "alignment produced no mapped tokens"@,
    }
}

pub fn write_error(e: AlignError, mode: &str) -> (r: String)
    ensures
        r@ == error_text(e, mode@),
{
    match e {
        AlignError::NoTokens => "no tokens found in transcription".to_owned(),
        AlignError::TimeMode(m) => match m {
            TimeMode::Forced => "word_time_upgrade failed: word_time_upgrade=whisperx is not implemented".to_owned(),
            _ => {
                let mut out = "word_time_upgrade failed: unknown word_time_upgrade mode: ".to_owned();
                out.append(mode);
                out
            },
        },
        AlignError::TooLong { transcript_tokens, max_transcript_tokens } => "transcript too long for alignment".to_owned(),
        AlignError::NoCandidates => "no candidates generated".to_owned(),
        AlignError::NoMappedTokens => "alignment produced no mapped tokens".to_owned(),
    }
}

pub open spec fn error_tree<S: Scalar>(e: AlignError, mode: Seq<char>) -> Tree<S> {
    match e {
        AlignError::TooLong { transcript_tokens, max_transcript_tokens } => Tree::Object(
            seq![
                ("error"@, Tree::Text(error_text(e, mode))),
                ("transcript_tokens"@, tree::count_tree(transcript_tokens as u64)),
                ("max_transcript_tokens"@, tree::count_tree(max_transcript_tokens as u64)),
            ],
        ),
        _ => single("error"@, Tree::Text(error_text(e, mode))),
    }
}

pub fn error_value<S: Scalar>(e: AlignError, mode: &str) -> (r: Json<S>)
    ensures
        tree::tree_of(r) == error_tree::<S>(e, mode@),
{
    let mut out: Vec<(String, Json<S>)> = Vec::new();
    tree::put(&mut out, "error", tree::text(write_error(e, mode).as_str()));
    match e {
        AlignError::TooLong { transcript_tokens, max_transcript_tokens } => {
            tree::put(&mut out, "transcript_tokens", tree::count(transcript_tokens as u64));
            tree::put(&mut out, "max_transcript_tokens", tree::count(max_transcript_tokens as u64));
        },
        _ => {},
    }
    assert(tree::entries_of(out@) =~= error_tree::<S>(e, mode@)->Object_0);
    Json::Object(out)
}

/// What came of an alignment; nothing where none was made.
pub open spec fn outcome_tree<S: Scalar>(
    outcome: Option<Result<AlignmentReport<S>, AlignError>>,
    mode: Seq<char>,
    debug: bool,
) -> Tree<S> {
    match outcome {
        None => Tree::Null,
        Some(Err(e)) => error_tree(e, mode),
        Some(Ok(t)) => report_tree(t, debug),
    }
}

pub fn outcome_value<S: Scalar>(
    outcome: Option<&Result<AlignmentReport<S>, AlignError>>,
    mode: &str,
    debug: bool,
) -> (r: Json<S>)
    ensures
        tree::tree_of(r) == outcome_tree(
            match outcome {
                None => None,
                Some(x) => Some(*x),
            },
            mode@,
            debug,
        ),
{
    match outcome {
        None => Json::Null,
        Some(Err(e)) => error_value(*e, mode),
        Some(Ok(t)) => report_value(t, debug),
    }
}

// ---------------------------------------------------------------------------
// Spans and jumps

/// The numbers from `from` up to and with `to`.
pub open spec fn index_trees<S: Scalar>(from: int, to: int) -> Seq<Tree<S>> {
    Seq::new(
        if from <= to {
            (to - from + 1) as nat
        } else {
            0
        },
        |k: int| tree::count_tree((from + k) as u64),
    )
}

fn index_values<S: Scalar>(span: SpanCandidate) -> (r: Vec<Json<S>>)
    ensures
        tree::trees_of(r@) == index_trees::<S>(span.start_seg_index as int, span.end_seg_index as int),
{
    let ghost from = span.start_seg_index as int;
    let ghost to = span.end_seg_index as int;
    let mut out: Vec<Json<S>> = Vec::new();
    if span.start_seg_index <= span.end_seg_index {
        let mut i: usize = span.start_seg_index;
        assert(tree::trees_of(out@) =~= index_trees::<S>(from, to).take(0));
        while i < span.end_seg_index
            invariant
                from == span.start_seg_index,
                to == span.end_seg_index,
                from <= i <= to,
                tree::trees_of(out@) == index_trees::<S>(from, to).take(i - from),
            decreases span.end_seg_index - i,
        {
            tree::add_item(&mut out, tree::count(i as u64));
            assert(index_trees::<S>(from, to).take(i - from + 1) =~= index_trees::<S>(from, to).take(i - from).push(
                tree::count_tree(i as u64),
            ));
            i = i + 1;
        }
        tree::add_item(&mut out, tree::count(i as u64));
        assert(index_trees::<S>(from, to) =~= index_trees::<S>(from, to).take(i - from).push(
            tree::count_tree(i as u64),
        ));
    } else {
        assert(tree::trees_of(out@) =~= index_trees::<S>(from, to));
    }
    out
}

/// The place of a span that may be missing.
pub open spec fn index_tree<S: Scalar>(i: Option<usize>) -> Tree<S> {
    match i {
        Some(v) => tree::count_tree(v as u64),
        None => Tree::Null,
    }
}

pub fn index_value<S: Scalar>(i: Option<usize>) -> (r: Json<S>)
    ensures
        tree::tree_of(r) == index_tree::<S>(i),
{
    match i {
        Some(v) => tree::count(v as u64),
        None => Json::Null,
    }
}

pub open spec fn span_tree<S: Scalar>(x: SpanReport<S>) -> Tree<S> {
    Tree::Object(
        seq![
            ("start"@, opt_verse_tree(x.start)),
            ("end"@, opt_verse_tree(x.end)),
            ("start_s"@, tree::real_tree(x.start_s)),
            ("end_s"@, tree::real_tree(x.end_s)),
            ("confidence"@, tree::real_tree(x.confidence)),
            (
                "segment_indexes"@,
                Tree::List(index_trees(x.segments.start_seg_index as int, x.segments.end_seg_index as int)),
            ),
        ],
    )
}

fn span_value<S: Scalar>(x: &SpanReport<S>) -> (r: Json<S>)
    ensures
        tree::tree_of(r) == span_tree(*x),
{
    let mut e: Vec<(String, Json<S>)> = Vec::new();
    tree::put(&mut e, "start", opt_verse_value(x.start));
    tree::put(&mut e, "end", opt_verse_value(x.end));
    tree::put(&mut e, "start_s", tree::number(x.start_s));
    tree::put(&mut e, "end_s", tree::number(x.end_s));
    tree::put(&mut e, "confidence", tree::number(x.confidence));
    tree::put(&mut e, "segment_indexes", Json::List(index_values(x.segments)));
    assert(tree::entries_of(e@) =~= span_tree(*x)->Object_0);
    Json::Object(e)
}

pub open spec fn span_trees<S: Scalar>(list: Option<Vec<SpanReport<S>>>) -> Tree<S> {
    match list {
        None => Tree::Null,
        Some(v) => Tree::List(v@.map_values(|x: SpanReport<S>| span_tree(x))),
    }
}

pub fn spans_value<S: Scalar>(list: &Option<Vec<SpanReport<S>>>) -> (r: Json<S>)
    ensures
        tree::tree_of(r) == span_trees(*list),
{
    match list {
        None => Json::Null,
        Some(v) => {
            let ghost all = v@.map_values(|x: SpanReport<S>| span_tree(x));
            let mut out: Vec<Json<S>> = Vec::new();
            let mut i: usize = 0;
            assert(all.take(0) =~= Seq::<Tree<S>>::empty());
            while i < v.len()
                invariant
                    i <= v@.len(),
                    all == v@.map_values(|x: SpanReport<S>| span_tree(x)),
                    tree::trees_of(out@) == all.take(i as int),
                decreases v@.len() - i,
            {
                tree::add_item(&mut out, span_value(&v[i]));
                assert(all.take(i as int + 1) =~= all.take(i as int).push(all[i as int]));
                i = i + 1;
            }
            assert(all.take(i as int) =~= all);
            Json::List(out)
        },
    }
}

pub open spec fn jump_tree<S: Scalar>(x: JumpEvent<S>) -> Tree<S> {
    Tree::Object(
        seq![
            ("at_s"@, tree::real_tree(x.at_s)),
            ("at_segment_index"@, tree::count_tree(x.at_segment_index as u64)),
            ("from_span_index"@, tree::count_tree(x.from_span_index as u64)),
            ("to_span_index"@, tree::count_tree(x.to_span_index as u64)),
            ("distance_ayahs"@, tree::int_tree(x.distance_ayahs as i64)),
        ],
    )
}

fn jump_value<S: Scalar>(x: &JumpEvent<S>) -> (r: Json<S>)
    ensures
        tree::tree_of(r) == jump_tree(*x),
{
    let mut e: Vec<(String, Json<S>)> = Vec::new();
    tree::put(&mut e, "at_s", tree::number(x.at_s));
    tree::put(&mut e, "at_segment_index", tree::count(x.at_segment_index as u64));
    tree::put(&mut e, "from_span_index", tree::count(x.from_span_index as u64));
    tree::put(&mut e, "to_span_index", tree::count(x.to_span_index as u64));
    tree::put(&mut e, "distance_ayahs", tree::int_value(x.distance_ayahs as i64));
    assert(tree::entries_of(e@) =~= jump_tree(*x)->Object_0);
    Json::Object(e)
}

pub open spec fn jump_trees<S: Scalar>(list: Option<Vec<JumpEvent<S>>>) -> Tree<S> {
    match list {
        None => Tree::Null,
        Some(v) => Tree::List(v@.map_values(|x: JumpEvent<S>| jump_tree(x))),
    }
}

pub fn jumps_value<S: Scalar>(list: &Option<Vec<JumpEvent<S>>>) -> (r: Json<S>)
    ensures
        tree::tree_of(r) == jump_trees(*list),
{
    match list {
        None => Json::Null,
        Some(v) => {
            let ghost all = v@.map_values(|x: JumpEvent<S>| jump_tree(x));
            let mut out: Vec<Json<S>> = Vec::new();
            let mut i: usize = 0;
            assert(all.take(0) =~= Seq::<Tree<S>>::empty());
            while i < v.len()
                invariant
                    i <= v@.len(),
                    all == v@.map_values(|x: JumpEvent<S>| jump_tree(x)),
                    tree::trees_of(out@) == all.take(i as int),
                decreases v@.len() - i,
            {
                tree::add_item(&mut out, jump_value(&v[i]));
                assert(all.take(i as int + 1) =~= all.take(i as int).push(all[i as int]));
                i = i + 1;
            }
            assert(all.take(i as int) =~= all);
            Json::List(out)
        },
    }
}

/// An alignment is reported with the verses from which and to which it reaches, how sure
/// it is, and one entry for each verse; the counts only if they are wanted.
pub proof fn law_alignments_are_reported<S: Scalar>(t: AlignmentReport<S>, debug: bool)
    ensures
        ({
            let r = report_tree(t, debug);
            &&& r matches Tree::Object(e)
            &&& e.contains(("start"@, verse_tree(t.start))) && e.contains(("end"@, verse_tree(t.end)))
            &&& e.contains(("confidence"@, tree::real_tree(t.confidence)))
            &&& e.contains(("segments"@, Tree::List(t.segments@.map_values(|x: AyahSegment<S>| segment_tree(x)))))
            &&& !debug ==> e.contains(("debug"@, Tree::Null))
            &&& debug ==> e.contains(("debug"@, debug_tree(t.debug)))
        }),
{
    let e = report_tree(t, debug)->Object_0;
    assert(e[2] == ("confidence"@, tree::real_tree(t.confidence)));
    assert(e[3] == ("start"@, verse_tree::<S>(t.start)));
    assert(e[4] == ("end"@, verse_tree::<S>(t.end)));
    assert(e[7].0 == "debug"@);
    assert(e[11] == ("segments"@, Tree::List(t.segments@.map_values(|x: AyahSegment<S>| segment_tree(x)))));
}

/// A verse is told by its chapter and its number, and by both with a colon between them.
pub proof fn law_verses_are_told_by_number<S: Scalar>(v: AyahRef)
    ensures
        verse_tree::<S>(v) matches Tree::Object(e) && e.contains(
            ("ayah_key"@, Tree::Text(chars::decimal(v.surah as nat) + seq![':'] + chars::decimal(v.ayah as nat))),
        ) && e.contains(("surah_id"@, tree::count_tree(v.surah as u64))) && e.contains(
            ("ayah_num"@, tree::count_tree(v.ayah as u64)),
        ),
{
    let e = verse_tree::<S>(v)->Object_0;
    assert(e[0].0 == "ayah_key"@);
    assert(e[1] == ("surah_id"@, tree::count_tree::<S>(v.surah as u64)));
    assert(e[2] == ("ayah_num"@, tree::count_tree::<S>(v.ayah as u64)));
}

/// A verse that was heard is told with its times and with how many words were heard and
/// hit.
pub proof fn law_heard_verses_are_told<S: Scalar>(x: AyahSegment<S>)
    ensures
        segment_tree(x) matches Tree::Object(e) && e.contains(("start_s"@, tree::opt_real_tree(x.start_s)))
            && e.contains(("end_s"@, tree::opt_real_tree(x.end_s))) && e.contains(
            ("ayah_num"@, tree::count_tree(x.ayah_num as u64)),
        ) && e.contains(("surah_id"@, tree::count_tree(x.surah_id as u64))) && e.contains(
            ("token_count"@, tree::count_tree(x.token_count as u64)),
        ) && e.contains(("match_count"@, tree::count_tree(x.match_count as u64))) && e.contains(
            ("estimated_time"@, Tree::Bool(x.estimated_time)),
        ),
{
    let e = segment_tree(x)->Object_0;
    assert(e[1] == ("surah_id"@, tree::count_tree::<S>(x.surah_id as u64)));
    assert(e[2] == ("ayah_num"@, tree::count_tree::<S>(x.ayah_num as u64)));
    assert(e[3] == ("start_s"@, tree::opt_real_tree(x.start_s)));
    assert(e[4] == ("end_s"@, tree::opt_real_tree(x.end_s)));
    assert(e[7] == ("token_count"@, tree::count_tree::<S>(x.token_count as u64)));
    assert(e[8] == ("match_count"@, tree::count_tree::<S>(x.match_count as u64)));
    assert(e[9] == ("estimated_time"@, Tree::<S>::Bool(x.estimated_time)));
}

/// What could not be aligned is told as an error, what was as a report, and nothing as
/// null.
pub proof fn law_outcomes_are_told<S: Scalar>(t: AlignmentReport<S>, e: AlignError, mode: Seq<char>, debug: bool)
    ensures
        outcome_tree::<S>(None, mode, debug) == Tree::<S>::Null,
        outcome_tree(Some(Ok(t)), mode, debug) == report_tree(t, debug),
        outcome_tree::<S>(Some(Err(e)), mode, debug) matches Tree::Object(list) && list.contains(
            ("error"@, Tree::Text(error_text(e, mode))),
        ),
{
    let list = outcome_tree::<S>(Some(Err(e)), mode, debug)->Object_0;
    assert(list[0] == ("error"@, Tree::<S>::Text(error_text(e, mode))));
}

/// A span lists its segments one by one, from the first to the last.
pub proof fn law_spans_list_their_segments<S: Scalar>(from: int, to: int)
    requires
        0 <= from <= to < u64::MAX,
    ensures
        index_trees::<S>(from, to).len() == to - from + 1,
        forall|k: int|
            from <= k <= to ==> index_trees::<S>(from, to)[k - from] == #[trigger] tree::count_tree::<S>(k as u64),
{
}

/// A jump is told by its time, its place, the spans between which it leads and how far.
pub proof fn law_jumps_are_told<S: Scalar>(x: JumpEvent<S>)
    ensures
        jump_tree(x) matches Tree::Object(e) && e.contains(("at_s"@, tree::real_tree(x.at_s))) && e.contains(
            ("at_segment_index"@, tree::count_tree(x.at_segment_index as u64)),
        ) && e.contains(("from_span_index"@, tree::count_tree(x.from_span_index as u64))) && e.contains(
            ("to_span_index"@, tree::count_tree(x.to_span_index as u64)),
        ) && e.contains(("distance_ayahs"@, tree::int_tree(x.distance_ayahs as i64))),
{
    let e = jump_tree(x)->Object_0;
    assert(e[0] == ("at_s"@, tree::real_tree(x.at_s)));
    assert(e[1] == ("at_segment_index"@, tree::count_tree::<S>(x.at_segment_index as u64)));
    assert(e[2] == ("from_span_index"@, tree::count_tree::<S>(x.from_span_index as u64)));
    assert(e[3] == ("to_span_index"@, tree::count_tree::<S>(x.to_span_index as u64)));
    assert(e[4] == ("distance_ayahs"@, tree::int_tree::<S>(x.distance_ayahs as i64)));
}

} // verus!
