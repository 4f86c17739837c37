//! What the service writes and answers: requests, results and replies.

use vstd::prelude::*;

use crate::alignment_v2::{AlignError, AlignmentReport};
use crate::chars;
use crate::jobs;
use crate::jobs::JobMeta;
use crate::json::Json;
use crate::multispan::MultiSpanOutput;
use crate::reports;
use crate::scalar::Scalar;
use crate::streaming::StreamConfig;
use crate::tree;
use crate::tree::Tree;

verus! {

pub open spec fn opt_bool_tree<S>(b: Option<bool>) -> Tree<S> {
    match b {
        Some(v) => Tree::Bool(v),
        None => Tree::Null,
    }
}

fn opt_bool<S: Scalar>(b: Option<bool>) -> (r: Json<S>)
    ensures
        tree::tree_of(r) == opt_bool_tree::<S>(b),
{
    match b {
        Some(v) => Json::Bool(v),
        None => Json::Null,
    }
}

/// The list of some texts.
pub open spec fn text_trees<S>(list: Seq<Seq<char>>) -> Seq<Tree<S>> {
    list.map_values(|t: Seq<char>| Tree::<S>::Text(t))
}

fn text_values<S: Scalar>(list: &[String]) -> (r: Vec<Json<S>>)
    ensures
        tree::trees_of(r@) == text_trees::<S>(chars::views(list@)),
{
    let ghost all = text_trees::<S>(chars::views(list@));
    let mut out: Vec<Json<S>> = Vec::new();
    let mut i: usize = 0;
    assert(all.take(0) =~= Seq::<Tree<S>>::empty());
    while i < list.len()
        invariant
            i <= list@.len(),
            all == text_trees::<S>(chars::views(list@)),
            tree::trees_of(out@) == all.take(i as int),
        decreases list@.len() - i,
    {
        tree::add_item(&mut out, tree::text(list[i].as_str()));
        assert(all.take(i as int + 1) =~= all.take(i as int).push(all[i as int]));
        i = i + 1;
    }
    assert(all.take(i as int) =~= all);
    out
}

// ---------------------------------------------------------------------------
// Requests

/// What a client may ask of a transcriber.
pub struct TranscribeOptions<S> {
    pub language: Option<String>,
    pub beam_size: Option<i64>,
    pub patience: Option<S>,
    pub word_timestamps: Option<bool>,
    pub log_prob_threshold: Option<S>,
    pub no_speech_threshold: Option<S>,
    pub batch_size: Option<i64>,
}

/// What a client may ask of the search for the chapter.
pub struct GuessOptions {
    pub top_k: Option<i64>,
    pub per_surah_top_n: Option<i64>,
    pub query_operator: Option<String>,
    pub rank_mode: Option<String>,
    pub max_query_tokens: Option<i64>,
    pub max_hits: Option<i64>,
}

/// An upload that was stored.
pub struct StoredInput {
    pub filename: String,
    pub content_type: String,
    pub path: String,
    pub size_bytes: u64,
}

pub open spec fn options_tree<S: Scalar>(o: TranscribeOptions<S>) -> Tree<S> {
    Tree::Object(
        seq![
            ("language"@, tree::opt_text_tree(o.language)),
            ("beam_size"@, tree::opt_int_tree(o.beam_size)),
            ("patience"@, tree::opt_real_tree(o.patience)),
            ("word_timestamps"@, opt_bool_tree(o.word_timestamps)),
            ("log_prob_threshold"@, tree::opt_real_tree(o.log_prob_threshold)),
            ("no_speech_threshold"@, tree::opt_real_tree(o.no_speech_threshold)),
            ("batch_size"@, tree::opt_int_tree(o.batch_size)),
        ],
    )
}

fn options_value<S: Scalar>(o: &TranscribeOptions<S>) -> (r: Json<S>)
    ensures
        tree::tree_of(r) == options_tree::<S>(*o),
{
    let mut e: Vec<(String, Json<S>)> = Vec::new();
    tree::put(&mut e, "language", tree::opt_text(&o.language));
    tree::put(&mut e, "beam_size", tree::opt_int(o.beam_size));
    tree::put(&mut e, "patience", tree::opt_real(o.patience));
    tree::put(&mut e, "word_timestamps", opt_bool(o.word_timestamps));
    tree::put(&mut e, "log_prob_threshold", tree::opt_real(o.log_prob_threshold));
    tree::put(&mut e, "no_speech_threshold", tree::opt_real(o.no_speech_threshold));
    tree::put(&mut e, "batch_size", tree::opt_int(o.batch_size));
    assert(tree::entries_of(e@) =~= options_tree::<S>(*o)->Object_0);
    Json::Object(e)
}

pub open spec fn guess_options_tree<S: Scalar>(g: GuessOptions) -> Tree<S> {
    Tree::Object(
        seq![
            ("top_k"@, tree::opt_int_tree(g.top_k)),
            ("per_surah_top_n"@, tree::opt_int_tree(g.per_surah_top_n)),
            ("query_operator"@, tree::opt_text_tree(g.query_operator)),
            ("rank_mode"@, tree::opt_text_tree(g.rank_mode)),
            ("max_query_tokens"@, tree::opt_int_tree(g.max_query_tokens)),
            ("max_hits"@, tree::opt_int_tree(g.max_hits)),
        ],
    )
}

fn guess_options_value<S: Scalar>(g: &GuessOptions) -> (r: Json<S>)
    ensures
        tree::tree_of(r) == guess_options_tree::<S>(*g),
{
    let mut e: Vec<(String, Json<S>)> = Vec::new();
    tree::put(&mut e, "top_k", tree::opt_int(g.top_k));
    tree::put(&mut e, "per_surah_top_n", tree::opt_int(g.per_surah_top_n));
    tree::put(&mut e, "query_operator", tree::opt_text(&g.query_operator));
    tree::put(&mut e, "rank_mode", tree::opt_text(&g.rank_mode));
    tree::put(&mut e, "max_query_tokens", tree::opt_int(g.max_query_tokens));
    tree::put(&mut e, "max_hits", tree::opt_int(g.max_hits));
    assert(tree::entries_of(e@) =~= guess_options_tree::<S>(*g)->Object_0);
    Json::Object(e)
}

pub open spec fn input_tree<S: Scalar>(i: StoredInput) -> Tree<S> {
    Tree::Object(
        seq![
            ("filename"@, Tree::Text(i.filename@)),
            ("content_type"@, Tree::Text(i.content_type@)),
            ("path"@, Tree::Text(i.path@)),
            ("size_bytes"@, tree::count_tree(i.size_bytes)),
        ],
    )
}

fn input_value<S: Scalar>(i: &StoredInput) -> (r: Json<S>)
    ensures
        tree::tree_of(r) == input_tree::<S>(*i),
{
    let mut e: Vec<(String, Json<S>)> = Vec::new();
    tree::put(&mut e, "filename", tree::text(i.filename.as_str()));
    tree::put(&mut e, "content_type", tree::text(i.content_type.as_str()));
    tree::put(&mut e, "path", tree::text(i.path.as_str()));
    tree::put(&mut e, "size_bytes", tree::count(i.size_bytes));
    assert(tree::entries_of(e@) =~= input_tree::<S>(*i)->Object_0);
    Json::Object(e)
}

/// What is stored of a request.
pub open spec fn request_tree<S: Scalar>(
    job_id: Seq<char>,
    created_at: S,
    i: StoredInput,
    o: TranscribeOptions<S>,
    g: GuessOptions,
) -> Tree<S> {
    Tree::Object(
        seq![
            ("job_id"@, Tree::Text(job_id)),
            ("created_at"@, tree::real_tree(created_at)),
            ("input"@, input_tree(i)),
            ("transcription"@, options_tree(o)),
            ("guess"@, guess_options_tree(g)),
        ],
    )
}

pub fn request_value<S: Scalar>(
    job_id: &str,
    created_at: S,
    i: &StoredInput,
    o: &TranscribeOptions<S>,
    g: &GuessOptions,
) -> (r: Json<S>)
    ensures
        tree::tree_of(r) == request_tree::<S>(job_id@, created_at, *i, *o, *g),
{
    let mut e: Vec<(String, Json<S>)> = Vec::new();
    tree::put(&mut e, "job_id", tree::text(job_id));
    tree::put(&mut e, "created_at", tree::number(created_at));
    tree::put(&mut e, "input", input_value(i));
    tree::put(&mut e, "transcription", options_value(o));
    tree::put(&mut e, "guess", guess_options_value(g));
    assert(tree::entries_of(e@) =~= request_tree::<S>(job_id@, created_at, *i, *o, *g)->Object_0);
    Json::Object(e)
}

/// What is stored of a request to the demonstration.
pub open spec fn demo_request_tree<S: Scalar>(job_id: Seq<char>, created_at: S, i: StoredInput) -> Tree<S> {
    Tree::Object(
        seq![
            ("job_id"@, Tree::Text(job_id)),
            ("created_at"@, tree::real_tree(created_at)),
            ("demo"@, Tree::Bool(true)),
            ("input"@, input_tree(i)),
            ("transcription"@, Tree::Object(Seq::empty())),
            ("guess"@, Tree::Object(Seq::empty())),
        ],
    )
}

pub fn demo_request_value<S: Scalar>(job_id: &str, created_at: S, i: &StoredInput) -> (r: Json<S>)
    ensures
        tree::tree_of(r) == demo_request_tree::<S>(job_id@, created_at, *i),
{
    let mut e: Vec<(String, Json<S>)> = Vec::new();
    tree::put(&mut e, "job_id", tree::text(job_id));
    tree::put(&mut e, "created_at", tree::number(created_at));
    tree::put(&mut e, "demo", Json::Bool(true));
    tree::put(&mut e, "input", input_value(i));
    tree::put(&mut e, "transcription", Json::Object(Vec::new()));
    tree::put(&mut e, "guess", Json::Object(Vec::new()));
    assert(tree::entries_of(e@) =~= demo_request_tree::<S>(job_id@, created_at, *i)->Object_0);
    Json::Object(e)
}

// ---------------------------------------------------------------------------
// The guess

/// A chapter that a search found.
pub struct GuessRow<S> {
    pub surah_id: i64,
    pub surah_name_ar: String,
    pub surah_transliteration: String,
    pub best_score: S,
    pub sum_score: S,
    pub ayah_hits: i64,
    pub sum_top_score: S,
    pub top_hits: i64,
    pub best_ayah_key: String,
    pub probability: S,
}

/// A search and what it found.
pub struct GuessSearch<S> {
    pub query_operator: String,
    pub rank_mode: String,
    pub max_query_tokens: i64,
    pub fts_query: String,
    pub query_tokens: Vec<String>,
    pub match_count: i64,
    pub top_k: i64,
    pub per_surah_top_n: i64,
    pub max_hits: i64,
    pub guesses: Vec<GuessRow<S>>,
}

/// What came of the search for the chapter.
pub enum GuessDoc<S> {
    /// There was nothing to search for.
    Nothing,
    Failed(String),
    Found(GuessSearch<S>),
}

pub open spec fn row_tree<S: Scalar>(x: GuessRow<S>) -> Tree<S> {
    Tree::Object(
        seq![
            ("surah_id"@, tree::int_tree(x.surah_id)),
            ("surah_name_ar"@, Tree::Text(x.surah_name_ar@)),
            ("surah_transliteration"@, Tree::Text(x.surah_transliteration@)),
            ("best_score"@, tree::real_tree(x.best_score)),
            ("sum_score"@, tree::real_tree(x.sum_score)),
            ("ayah_hits"@, tree::int_tree(x.ayah_hits)),
            ("sum_top_score"@, tree::real_tree(x.sum_top_score)),
            ("top_hits"@, tree::int_tree(x.top_hits)),
            ("best_ayah_key"@, Tree::Text(x.best_ayah_key@)),
            ("probability"@, tree::real_tree(x.probability)),
        ],
    )
}

fn row_value<S: Scalar>(x: &GuessRow<S>) -> (r: Json<S>)
    ensures
        tree::tree_of(r) == row_tree::<S>(*x),
{
    let mut e: Vec<(String, Json<S>)> = Vec::new();
    tree::put(&mut e, "surah_id", tree::int_value(x.surah_id));
    tree::put(&mut e, "surah_name_ar", tree::text(x.surah_name_ar.as_str()));
    tree::put(&mut e, "surah_transliteration", tree::text(x.surah_transliteration.as_str()));
    tree::put(&mut e, "best_score", tree::number(x.best_score));
    tree::put(&mut e, "sum_score", tree::number(x.sum_score));
    tree::put(&mut e, "ayah_hits", tree::int_value(x.ayah_hits));
    tree::put(&mut e, "sum_top_score", tree::number(x.sum_top_score));
    tree::put(&mut e, "top_hits", tree::int_value(x.top_hits));
    tree::put(&mut e, "best_ayah_key", tree::text(x.best_ayah_key.as_str()));
    tree::put(&mut e, "probability", tree::number(x.probability));
    assert(tree::entries_of(e@) =~= row_tree::<S>(*x)->Object_0);
    Json::Object(e)
}

pub open spec fn row_trees<S: Scalar>(rows: Seq<GuessRow<S>>) -> Seq<Tree<S>> {
    rows.map_values(|x: GuessRow<S>| row_tree(x))
}

fn row_values<S: Scalar>(rows: &[GuessRow<S>]) -> (r: Vec<Json<S>>)
    ensures
        tree::trees_of(r@) == row_trees(rows@),
{
    let ghost all = row_trees(rows@);
    let mut out: Vec<Json<S>> = Vec::new();
    let mut i: usize = 0;
    assert(all.take(0) =~= Seq::<Tree<S>>::empty());
    while i < rows.len()
        invariant
            i <= rows@.len(),
            all == row_trees(rows@),
            tree::trees_of(out@) == all.take(i as int),
        decreases rows@.len() - i,
    {
        tree::add_item(&mut out, row_value(&rows[i]));
        assert(all.take(i as int + 1) =~= all.take(i as int).push(all[i as int]));
        i = i + 1;
    }
    assert(all.take(i as int) =~= all);
    out
}

impl<S: Scalar> GuessDoc<S> {
    /// The chapter that was found first.
    pub open spec fn first(&self) -> Option<i64> {
        match *self {
            GuessDoc::Found(x) => if x.guesses@.len() > 0 {
                Some(x.guesses@[0].surah_id)
            } else {
                None
            },
            _ => None,
        }
    }

    pub fn predicted(&self) -> (r: Option<i64>)
        ensures
            r == self.first(),
    {
        match self {
            GuessDoc::Found(x) => if x.guesses.len() > 0 {
                Some(x.guesses[0].surah_id)
            } else {
                None
            },
            _ => None,
        }
    }
}

/// What is told of a search, besides the chapter.
pub open spec fn search_entries<S: Scalar>(x: GuessSearch<S>) -> Seq<(Seq<char>, Tree<S>)> {
    seq![
        ("query_operator"@, Tree::Text(x.query_operator@)),
        ("rank_mode"@, Tree::Text(x.rank_mode@)),
        ("max_query_tokens"@, tree::int_tree(x.max_query_tokens)),
        ("fts_query"@, Tree::Text(x.fts_query@)),
        ("query_tokens"@, Tree::List(text_trees(chars::views(x.query_tokens@)))),
        ("match_count"@, tree::int_tree(x.match_count)),
        ("top_k"@, tree::int_tree(x.top_k)),
        ("per_surah_top_n"@, tree::int_tree(x.per_surah_top_n)),
        ("max_hits"@, tree::int_tree(x.max_hits)),
        ("guesses"@, Tree::List(row_trees(x.guesses@))),
    ]
}

fn put_search<S: Scalar>(e: &mut Vec<(String, Json<S>)>, x: &GuessSearch<S>)
    requires
        old(e)@.len() == 0,
    ensures
        tree::entries_of(final(e)@) == search_entries(*x),
{
    tree::put(e, "query_operator", tree::text(x.query_operator.as_str()));
    tree::put(e, "rank_mode", tree::text(x.rank_mode.as_str()));
    tree::put(e, "max_query_tokens", tree::int_value(x.max_query_tokens));
    tree::put(e, "fts_query", tree::text(x.fts_query.as_str()));
    tree::put(e, "query_tokens", Json::List(text_values(&x.query_tokens)));
    tree::put(e, "match_count", tree::int_value(x.match_count));
    tree::put(e, "top_k", tree::int_value(x.top_k));
    tree::put(e, "per_surah_top_n", tree::int_value(x.per_surah_top_n));
    tree::put(e, "max_hits", tree::int_value(x.max_hits));
    tree::put(e, "guesses", Json::List(row_values(&x.guesses)));
    assert(tree::entries_of(e@) =~= search_entries(*x));
}

/// The entries of a guess in front of its chapter.
pub open spec fn guess_entries<S: Scalar>(g: GuessDoc<S>) -> Seq<(Seq<char>, Tree<S>)> {
    match g {
        GuessDoc::Nothing => seq![("guesses"@, Tree::List(Seq::empty()))],
        GuessDoc::Failed(error) => seq![
            ("guesses"@, Tree::List(Seq::empty())),
            ("error"@, Tree::Text(error@)),
        ],
        GuessDoc::Found(x) => search_entries(x),
    }
}

fn put_guess<S: Scalar>(g: &GuessDoc<S>) -> (e: Vec<(String, Json<S>)>)
    ensures
        tree::entries_of(e@) == guess_entries(*g),
{
    let mut e: Vec<(String, Json<S>)> = Vec::new();
    let none: Vec<Json<S>> = Vec::new();
    match g {
        GuessDoc::Nothing => {
            tree::put(&mut e, "guesses", Json::List(none));
        },
        GuessDoc::Failed(error) => {
            tree::put(&mut e, "guesses", Json::List(none));
            tree::put(&mut e, "error", tree::text(error.as_str()));
        },
        GuessDoc::Found(x) => {
            put_search(&mut e, x);
        },
    }
    assert(tree::entries_of(e@) =~= guess_entries(*g));
    e
}

/// A guess as it was made.
pub open spec fn guess_tree<S: Scalar>(g: GuessDoc<S>) -> Tree<S> {
    Tree::Object(guess_entries(g).push(("predicted_surah_id"@, tree::opt_int_tree(g.first()))))
}

pub fn guess_value<S: Scalar>(g: &GuessDoc<S>) -> (r: Json<S>)
    ensures
        tree::tree_of(r) == guess_tree(*g),
{
    let mut e = put_guess(g);
    tree::put(&mut e, "predicted_surah_id", tree::opt_int(g.predicted()));
    Json::Object(e)
}

/// The verses that an alignment covers.
pub open spec fn range_tree<S: Scalar>(t: AlignmentReport<S>) -> Tree<S> {
    Tree::Object(
        seq![
            ("start"@, reports::verse_tree(t.start)),
            ("end"@, reports::verse_tree(t.end)),
            ("confidence"@, tree::real_tree(t.confidence)),
        ],
    )
}

fn range_value<S: Scalar>(t: &AlignmentReport<S>) -> (r: Json<S>)
    ensures
        tree::tree_of(r) == range_tree::<S>(*t),
{
    let mut e: Vec<(String, Json<S>)> = Vec::new();
    tree::put(&mut e, "start", reports::verse_value(t.start));
    tree::put(&mut e, "end", reports::verse_value(t.end));
    tree::put(&mut e, "confidence", tree::number(t.confidence));
    assert(tree::entries_of(e@) =~= range_tree::<S>(*t)->Object_0);
    Json::Object(e)
}

/// A guess whose chapter a good alignment may take the place of.
pub open spec fn settled_tree<S: Scalar>(
    g: GuessDoc<S>,
    outcome: Option<Result<AlignmentReport<S>, AlignError>>,
) -> Tree<S> {
    let choice = jobs::chapter_choice(g.first(), outcome);
    if choice.from_alignment {
        Tree::Object(
            guess_entries(g).push(("predicted_surah_id"@, tree::opt_int_tree(choice.predicted_surah_id))).push(
                ("predicted_surah_id_guess"@, tree::opt_int_tree(g.first())),
            ).push(("aligned_range"@, range_tree(outcome->0->Ok_0))),
        )
    } else {
        guess_tree(g)
    }
}

pub fn settled_value<S: Scalar>(
    g: &GuessDoc<S>,
    outcome: Option<&Result<AlignmentReport<S>, AlignError>>,
) -> (r: Json<S>)
    ensures
        tree::tree_of(r) == settled_tree(
            *g,
            match outcome {
                None => None,
                Some(x) => Some(*x),
            },
        ),
{
    let guessed: Option<i64> = g.predicted();
    let choice = jobs::choose_chapter(guessed, outcome);
    if choice.from_alignment {
        match outcome {
            Some(Ok(t)) => {
                let mut e = put_guess(g);
                tree::put(&mut e, "predicted_surah_id", tree::opt_int(choice.predicted_surah_id));
                tree::put(&mut e, "predicted_surah_id_guess", tree::opt_int(guessed));
                tree::put(&mut e, "aligned_range", range_value(t));
                return Json::Object(e);
            },
            _ => {},
        }
    }
    guess_value(g)
}

// ---------------------------------------------------------------------------
// The result of a job

/// What a transcriber answered.
pub struct Transcribed<S> {
    pub transcription: Json<S>,
    pub text: String,
    pub params: Json<S>,
}

/// How long the parts of a job took.
pub struct JobTiming<S> {
    pub transcribe_s: S,
    pub guess_s: S,
    pub align_s: S,
    pub total_s: S,
}

pub open spec fn transcribed_tree<S: Scalar>(t: Transcribed<S>) -> Tree<S> {
    Tree::Object(
        seq![
            ("language"@, tree::field_tree(t.transcription, "language"@)),
            ("language_probability"@, tree::field_tree(t.transcription, "language_probability"@)),
            ("duration_s"@, tree::field_tree(t.transcription, "duration_s"@)),
            ("segments"@, tree::field_tree(t.transcription, "segments"@)),
            ("repair"@, tree::field_tree(t.transcription, "repair"@)),
            ("dedupe"@, tree::field_tree(t.transcription, "dedupe"@)),
            ("text"@, Tree::Text(t.text@)),
            ("params"@, tree::tree_of(t.params)),
        ],
    )
}

fn transcribed_value<S: Scalar>(t: &Transcribed<S>) -> (r: Json<S>)
    ensures
        tree::tree_of(r) == transcribed_tree::<S>(*t),
{
    let mut e: Vec<(String, Json<S>)> = Vec::new();
    tree::put(&mut e, "language", tree::field_copy(&t.transcription, "language"));
    tree::put(&mut e, "language_probability", tree::field_copy(&t.transcription, "language_probability"));
    tree::put(&mut e, "duration_s", tree::field_copy(&t.transcription, "duration_s"));
    tree::put(&mut e, "segments", tree::field_copy(&t.transcription, "segments"));
    tree::put(&mut e, "repair", tree::field_copy(&t.transcription, "repair"));
    tree::put(&mut e, "dedupe", tree::field_copy(&t.transcription, "dedupe"));
    tree::put(&mut e, "text", tree::text(t.text.as_str()));
    tree::put(&mut e, "params", tree::copy_of(&t.params));
    assert(tree::entries_of(e@) =~= transcribed_tree::<S>(*t)->Object_0);
    Json::Object(e)
}

pub open spec fn timing_tree<S: Scalar>(t: JobTiming<S>) -> Tree<S> {
    Tree::Object(
        seq![
            ("transcribe_s"@, tree::real_tree(t.transcribe_s)),
            ("guess_s"@, tree::real_tree(t.guess_s)),
            ("align_s"@, tree::real_tree(t.align_s)),
            ("total_s"@, tree::real_tree(t.total_s)),
        ],
    )
}

fn timing_value<S: Scalar>(t: &JobTiming<S>) -> (r: Json<S>)
    ensures
        tree::tree_of(r) == timing_tree::<S>(*t),
{
    let mut e: Vec<(String, Json<S>)> = Vec::new();
    tree::put(&mut e, "transcribe_s", tree::number(t.transcribe_s));
    tree::put(&mut e, "guess_s", tree::number(t.guess_s));
    tree::put(&mut e, "align_s", tree::number(t.align_s));
    tree::put(&mut e, "total_s", tree::number(t.total_s));
    assert(tree::entries_of(e@) =~= timing_tree::<S>(*t)->Object_0);
    Json::Object(e)
}

/// The alignments of a job, if there was something to align with.
pub open spec fn active_of<S: Scalar>(out: Option<MultiSpanOutput<S>>) -> Option<Result<AlignmentReport<S>, AlignError>> {
    match out {
        Some(o) => o.active(),
        None => None,
    }
}

pub open spec fn spans_of<S: Scalar>(out: Option<MultiSpanOutput<S>>) -> Tree<S> {
    match out {
        Some(o) => reports::span_trees(o.spans),
        None => Tree::Null,
    }
}

pub open spec fn jumps_of<S: Scalar>(out: Option<MultiSpanOutput<S>>) -> Tree<S> {
    match out {
        Some(o) => reports::jump_trees(o.jumps),
        None => Tree::Null,
    }
}

pub open spec fn active_index_of<S: Scalar>(out: Option<MultiSpanOutput<S>>) -> Tree<S> {
    match out {
        Some(o) => reports::index_tree(o.active_span_index),
        None => Tree::Null,
    }
}

/// The result of a job.
pub open spec fn result_tree<S: Scalar>(
    job_id: Seq<char>,
    input: Json<S>,
    heard: Transcribed<S>,
    g: GuessDoc<S>,
    out: Option<MultiSpanOutput<S>>,
    time_mode: Seq<char>,
    debug: bool,
    timing: JobTiming<S>,
) -> Tree<S> {
    Tree::Object(
        seq![
            ("job_id"@, Tree::Text(job_id)),
            ("input"@, tree::tree_of(input)),
            ("transcription"@, transcribed_tree(heard)),
            ("guess"@, settled_tree(g, active_of(out))),
            ("guess_full"@, guess_tree(g)),
            ("guess_tail"@, Tree::Null),
            ("guess_tail_last_segment"@, Tree::Null),
            ("ayah_alignment"@, reports::outcome_tree(active_of(out), time_mode, debug)),
            ("ayah_alignment_full"@, reports::outcome_tree(active_of(out), time_mode, debug)),
            ("ayah_alignment_full_v2"@, reports::outcome_tree(active_of(out), time_mode, debug)),
            ("ayah_alignment_spans"@, spans_of(out)),
            ("ayah_alignment_jumps"@, jumps_of(out)),
            ("ayah_alignment_active_span_index"@, active_index_of(out)),
            ("ayah_alignment_tail"@, Tree::Null),
            ("ayah_alignment_tail_last_segment"@, Tree::Null),
            ("tail_recovery"@, Tree::Null),
            ("timing"@, timing_tree(timing)),
        ],
    )
}

pub fn result_value<S: Scalar>(
    job_id: &str,
    input: &Json<S>,
    heard: &Transcribed<S>,
    g: &GuessDoc<S>,
    out: &Option<MultiSpanOutput<S>>,
    time_mode: &str,
    debug: bool,
    timing: &JobTiming<S>,
) -> (r: Json<S>)
    requires
        *out matches Some(o) ==> o.wf(),
    ensures
        tree::tree_of(r) == result_tree::<S>(job_id@, *input, *heard, *g, *out, time_mode@, debug, *timing),
{
    let active: Option<&Result<AlignmentReport<S>, AlignError>> = match out {
        Some(o) => o.active_alignment(),
        None => None,
    };
    let spans: Json<S> = match out {
        Some(o) => reports::spans_value(&o.spans),
        None => Json::Null,
    };
    let jumps: Json<S> = match out {
        Some(o) => reports::jumps_value(&o.jumps),
        None => Json::Null,
    };
    let index: Json<S> = match out {
        Some(o) => reports::index_value(o.active_span_index),
        None => Json::Null,
    };
    let mut e: Vec<(String, Json<S>)> = Vec::new();
    tree::put(&mut e, "job_id", tree::text(job_id));
    tree::put(&mut e, "input", tree::copy_of(input));
    tree::put(&mut e, "transcription", transcribed_value(heard));
    tree::put(&mut e, "guess", settled_value(g, active));
    tree::put(&mut e, "guess_full", guess_value(g));
    tree::put(&mut e, "guess_tail", Json::Null);
    tree::put(&mut e, "guess_tail_last_segment", Json::Null);
    tree::put(&mut e, "ayah_alignment", reports::outcome_value(active, time_mode, debug));
    tree::put(&mut e, "ayah_alignment_full", reports::outcome_value(active, time_mode, debug));
    tree::put(&mut e, "ayah_alignment_full_v2", reports::outcome_value(active, time_mode, debug));
    tree::put(&mut e, "ayah_alignment_spans", spans);
    tree::put(&mut e, "ayah_alignment_jumps", jumps);
    tree::put(&mut e, "ayah_alignment_active_span_index", index);
    tree::put(&mut e, "ayah_alignment_tail", Json::Null);
    tree::put(&mut e, "ayah_alignment_tail_last_segment", Json::Null);
    tree::put(&mut e, "tail_recovery", Json::Null);
    tree::put(&mut e, "timing", timing_value(timing));
    assert(tree::entries_of(e@) =~= result_tree::<S>(job_id@, *input, *heard, *g, *out, time_mode@, debug, *timing)->Object_0);
    Json::Object(e)
}

// ---------------------------------------------------------------------------
// Replies

/// What is told of a job.
pub open spec fn job_tree<S: Scalar>(m: JobMeta<S>) -> Tree<S> {
    Tree::Object(
        seq![
            ("job_id"@, Tree::Text(m.job_id@)),
            ("status"@, Tree::Text(m.status@)),
            ("created_at"@, tree::real_tree(m.created_at)),
            ("updated_at"@, tree::real_tree(m.updated_at)),
            ("started_at"@, tree::opt_real_tree(m.started_at)),
            ("finished_at"@, tree::opt_real_tree(m.finished_at)),
            ("filename"@, Tree::Text(m.filename@)),
            ("content_type"@, Tree::Text(m.content_type@)),
            ("size_bytes"@, tree::count_tree(m.size_bytes)),
            ("error"@, tree::opt_text_tree(m.error)),
        ],
    )
}

pub fn job_value<S: Scalar>(m: &JobMeta<S>) -> (r: Json<S>)
    ensures
        tree::tree_of(r) == job_tree::<S>(*m),
{
    let mut e: Vec<(String, Json<S>)> = Vec::new();
    tree::put(&mut e, "job_id", tree::text(m.job_id.as_str()));
    tree::put(&mut e, "status", tree::text(m.status.as_str()));
    tree::put(&mut e, "created_at", tree::number(m.created_at));
    tree::put(&mut e, "updated_at", tree::number(m.updated_at));
    tree::put(&mut e, "started_at", tree::opt_real(m.started_at));
    tree::put(&mut e, "finished_at", tree::opt_real(m.finished_at));
    tree::put(&mut e, "filename", tree::text(m.filename.as_str()));
    tree::put(&mut e, "content_type", tree::text(m.content_type.as_str()));
    tree::put(&mut e, "size_bytes", tree::count(m.size_bytes));
    tree::put(&mut e, "error", tree::opt_text(&m.error));
    assert(tree::entries_of(e@) =~= job_tree::<S>(*m)->Object_0);
    Json::Object(e)
}

/// What the demonstration tells of a job.
pub open spec fn demo_job_tree<S: Scalar>(m: JobMeta<S>) -> Tree<S> {
    Tree::Object(
        seq![
            ("job_id"@, Tree::Text(m.job_id@)),
            ("status"@, Tree::Text(m.status@)),
            ("error"@, tree::opt_text_tree(m.error)),
        ],
    )
}

pub fn demo_job_value<S: Scalar>(m: &JobMeta<S>) -> (r: Json<S>)
    ensures
        tree::tree_of(r) == demo_job_tree::<S>(*m),
{
    let mut e: Vec<(String, Json<S>)> = Vec::new();
    tree::put(&mut e, "job_id", tree::text(m.job_id.as_str()));
    tree::put(&mut e, "status", tree::text(m.status.as_str()));
    tree::put(&mut e, "error", tree::opt_text(&m.error));
    assert(tree::entries_of(e@) =~= demo_job_tree::<S>(*m)->Object_0);
    Json::Object(e)
}

/// A job waits.
pub open spec fn queued_tree<S: Scalar>(job_id: Seq<char>) -> Tree<S> {
    Tree::Object(
        seq![
            ("job_id"@, Tree::Text(job_id)),
            ("status"@, Tree::Text("queued"@)),
        ],
    )
}

pub fn queued_value<S: Scalar>(job_id: &str) -> (r: Json<S>)
    ensures
        tree::tree_of(r) == queued_tree::<S>(job_id@),
{
    let mut e: Vec<(String, Json<S>)> = Vec::new();
    tree::put(&mut e, "job_id", tree::text(job_id));
    tree::put(&mut e, "status", tree::text("queued"));
    assert(tree::entries_of(e@) =~= queued_tree::<S>(job_id@)->Object_0);
    Json::Object(e)
}

pub open spec fn config_tree<S: Scalar>(c: StreamConfig<S>) -> Tree<S> {
    Tree::Object(
        seq![
            ("sample_rate_hz"@, tree::count_tree(c.sample_rate_hz as u64)),
            ("channels"@, tree::count_tree(c.channels as u64)),
            ("window_s"@, tree::real_tree(c.window_s)),
            ("hop_s"@, tree::real_tree(c.hop_s)),
            ("buffer_s"@, tree::real_tree(c.buffer_s)),
            ("min_process_s"@, tree::real_tree(c.min_process_s)),
        ],
    )
}

fn config_value<S: Scalar>(c: &StreamConfig<S>) -> (r: Json<S>)
    ensures
        tree::tree_of(r) == config_tree::<S>(*c),
{
    let mut e: Vec<(String, Json<S>)> = Vec::new();
    tree::put(&mut e, "sample_rate_hz", tree::count(c.sample_rate_hz as u64));
    tree::put(&mut e, "channels", tree::count(c.channels as u64));
    tree::put(&mut e, "window_s", tree::number(c.window_s));
    tree::put(&mut e, "hop_s", tree::number(c.hop_s));
    tree::put(&mut e, "buffer_s", tree::number(c.buffer_s));
    tree::put(&mut e, "min_process_s", tree::number(c.min_process_s));
    assert(tree::entries_of(e@) =~= config_tree::<S>(*c)->Object_0);
    Json::Object(e)
}

/// A session is open.
pub open spec fn session_tree<S: Scalar>(
    session_id: Seq<char>,
    ws_path: Seq<char>,
    ws_url: Seq<char>,
    c: StreamConfig<S>,
) -> Tree<S> {
    Tree::Object(
        seq![
            ("session_id"@, Tree::Text(session_id)),
            ("ws_path"@, Tree::Text(ws_path)),
            ("ws_url"@, Tree::Text(ws_url)),
            ("config"@, config_tree(c)),
        ],
    )
}

pub fn session_value<S: Scalar>(session_id: &str, ws_path: &str, ws_url: &str, c: &StreamConfig<S>) -> (r: Json<S>)
    ensures
        tree::tree_of(r) == session_tree::<S>(session_id@, ws_path@, ws_url@, *c),
{
    let mut e: Vec<(String, Json<S>)> = Vec::new();
    tree::put(&mut e, "session_id", tree::text(session_id));
    tree::put(&mut e, "ws_path", tree::text(ws_path));
    tree::put(&mut e, "ws_url", tree::text(ws_url));
    tree::put(&mut e, "config", config_value(c));
    assert(tree::entries_of(e@) =~= session_tree::<S>(session_id@, ws_path@, ws_url@, *c)->Object_0);
    Json::Object(e)
}

/// A session of the demonstration is open.
pub open spec fn demo_session_tree<S: Scalar>(
    session_id: Seq<char>,
    ws_path: Seq<char>,
    c: StreamConfig<S>,
    max_duration_s: u64,
) -> Tree<S> {
    Tree::Object(
        seq![
            ("session_id"@, Tree::Text(session_id)),
            ("ws_path"@, Tree::Text(ws_path)),
            ("config"@, config_tree(c)),
            ("max_duration_s"@, tree::count_tree(max_duration_s)),
        ],
    )
}

pub fn demo_session_value<S: Scalar>(
    session_id: &str,
    ws_path: &str,
    c: &StreamConfig<S>,
    max_duration_s: u64,
) -> (r: Json<S>)
    ensures
        tree::tree_of(r) == demo_session_tree::<S>(session_id@, ws_path@, *c, max_duration_s),
{
    let mut e: Vec<(String, Json<S>)> = Vec::new();
    tree::put(&mut e, "session_id", tree::text(session_id));
    tree::put(&mut e, "ws_path", tree::text(ws_path));
    tree::put(&mut e, "config", config_value(c));
    tree::put(&mut e, "max_duration_s", tree::count(max_duration_s));
    assert(tree::entries_of(e@) =~= demo_session_tree::<S>(session_id@, ws_path@, *c, max_duration_s)->Object_0);
    Json::Object(e)
}

/// A session was told to stop.
pub open spec fn stopped_tree<S: Scalar>(session_id: Seq<char>) -> Tree<S> {
    Tree::Object(
        seq![
            ("ok"@, Tree::Bool(true)),
            ("session_id"@, Tree::Text(session_id)),
        ],
    )
}

pub fn stopped_value<S: Scalar>(session_id: &str) -> (r: Json<S>)
    ensures
        tree::tree_of(r) == stopped_tree::<S>(session_id@),
{
    let mut e: Vec<(String, Json<S>)> = Vec::new();
    tree::put(&mut e, "ok", Json::Bool(true));
    tree::put(&mut e, "session_id", tree::text(session_id));
    assert(tree::entries_of(e@) =~= stopped_tree::<S>(session_id@)->Object_0);
    Json::Object(e)
}

/// The service is up.
pub open spec fn health_tree<S: Scalar>(now: S, queue_length: usize, jobs_total: usize) -> Tree<S> {
    Tree::Object(
        seq![
            ("ok"@, Tree::Bool(true)),
            ("time"@, tree::real_tree(now)),
            ("queue_length_estimate"@, tree::count_tree(queue_length as u64)),
            ("jobs_total"@, tree::count_tree(jobs_total as u64)),
        ],
    )
}

pub fn health_value<S: Scalar>(now: S, queue_length: usize, jobs_total: usize) -> (r: Json<S>)
    ensures
        tree::tree_of(r) == health_tree::<S>(now, queue_length, jobs_total),
{
    let mut e: Vec<(String, Json<S>)> = Vec::new();
    tree::put(&mut e, "ok", Json::Bool(true));
    tree::put(&mut e, "time", tree::number(now));
    tree::put(&mut e, "queue_length_estimate", tree::count(queue_length as u64));
    tree::put(&mut e, "jobs_total", tree::count(jobs_total as u64));
    assert(tree::entries_of(e@) =~= health_tree::<S>(now, queue_length, jobs_total)->Object_0);
    Json::Object(e)
}

/// How the demonstration does.
pub open spec fn demo_health_tree<S>() -> Tree<S> {
    Tree::Object(seq![("ok"@, Tree::Bool(true)), ("demo"@, Tree::Bool(true))])
}

pub fn demo_health_value<S: Scalar>() -> (r: Json<S>)
    ensures
        tree::tree_of(r) == demo_health_tree::<S>(),
{
    let mut e: Vec<(String, Json<S>)> = Vec::new();
    tree::put(&mut e, "ok", Json::Bool(true));
    tree::put(&mut e, "demo", Json::Bool(true));
    assert(tree::entries_of(e@) =~= demo_health_tree::<S>()->Object_0);
    Json::Object(e)
}

/// The chapter told is that of the first guess, unless a sure alignment decides it; then
/// the guess is told beside it.
pub proof fn law_settled_chapters_are_told<S: Scalar>(g: GuessDoc<S>, t: AlignmentReport<S>)
    ensures
        guess_tree(g) matches Tree::Object(e) && e.contains(("predicted_surah_id"@, tree::opt_int_tree(g.first()))),
        settled_tree(g, None) == guess_tree(g),
        ({
            let one = t.start.surah == t.end.surah;
            let sure = (one && S::milli_spec(350).rank() <= t.confidence.rank()) || (!one && S::milli_spec(500).rank()
                <= t.confidence.rank());
            let enough = t.best.substitutions >= 6 || t.best.matches >= 4;
            &&& sure && enough ==> (settled_tree(g, Some(Ok(t))) matches Tree::Object(e) && e.contains(
                ("predicted_surah_id"@, tree::int_tree(t.start.surah as i64)),
            ) && e.contains(("predicted_surah_id_guess"@, tree::opt_int_tree(g.first()))) && e.contains(
                ("aligned_range"@, range_tree(t)),
            ))
            &&& !(sure && enough) ==> settled_tree(g, Some(Ok(t))) == guess_tree(g)
        }),
{
    jobs::law_sure_alignments_decide_the_chapter(g.first(), t);
    let e = guess_tree(g)->Object_0;
    assert(e[e.len() - 1] == ("predicted_surah_id"@, tree::opt_int_tree::<S>(g.first())));
    let choice = jobs::chapter_choice(g.first(), Some(Ok(t)));
    if choice.from_alignment {
        let list = settled_tree(g, Some(Ok(t)))->Object_0;
        let n = list.len() as int;
        assert(list[n - 1] == ("aligned_range"@, range_tree(t)));
        assert(list[n - 2] == ("predicted_surah_id_guess"@, tree::opt_int_tree::<S>(g.first())));
        assert(list[n - 3] == ("predicted_surah_id"@, tree::int_tree::<S>(t.start.surah as i64)));
    }
}

/// The first guess is the first row that was found.
pub proof fn law_first_guess_leads<S: Scalar>(x: GuessSearch<S>)
    ensures
        x.guesses@.len() > 0 ==> GuessDoc::Found(x).first() == Some(x.guesses@[0].surah_id),
        x.guesses@.len() == 0 ==> GuessDoc::Found(x).first() is None,
        GuessDoc::<S>::Nothing.first() is None,
{
}

/// A result tells the alignment of the span that is active, in three places alike.
pub proof fn law_results_tell_the_active_alignment<S: Scalar>(
    job_id: Seq<char>,
    input: Json<S>,
    heard: Transcribed<S>,
    g: GuessDoc<S>,
    o: MultiSpanOutput<S>,
    time_mode: Seq<char>,
    debug: bool,
    timing: JobTiming<S>,
)
    ensures
        ({
            let r = result_tree(job_id, input, heard, g, Some(o), time_mode, debug, timing);
            let told = reports::outcome_tree(o.active(), time_mode, debug);
            &&& r matches Tree::Object(e)
            &&& e.contains(("job_id"@, Tree::Text(job_id)))
            &&& e.contains(("ayah_alignment"@, told)) && e.contains(("ayah_alignment_full"@, told)) && e.contains(
                ("ayah_alignment_full_v2"@, told),
            )
            &&& e.contains(("guess"@, settled_tree(g, o.active()))) && e.contains(("guess_full"@, guess_tree(g)))
            &&& e.contains(("ayah_alignment_spans"@, reports::span_trees(o.spans)))
            &&& e.contains(("ayah_alignment_jumps"@, reports::jump_trees(o.jumps)))
        }),
{
    let e = result_tree(job_id, input, heard, g, Some(o), time_mode, debug, timing)->Object_0;
    let told = reports::outcome_tree(o.active(), time_mode, debug);
    assert(e[0] == ("job_id"@, Tree::<S>::Text(job_id)));
    assert(e[3] == ("guess"@, settled_tree(g, o.active())));
    assert(e[4] == ("guess_full"@, guess_tree(g)));
    assert(e[7] == ("ayah_alignment"@, told));
    assert(e[8] == ("ayah_alignment_full"@, told));
    assert(e[9] == ("ayah_alignment_full_v2"@, told));
    assert(e[10] == ("ayah_alignment_spans"@, reports::span_trees(o.spans)));
    assert(e[11] == ("ayah_alignment_jumps"@, reports::jump_trees(o.jumps)));
}

/// A job is told with its status and its times; to a visitor of the demo only with its
/// status and its error.
pub proof fn law_jobs_are_told<S: Scalar>(m: JobMeta<S>)
    ensures
        job_tree(m) matches Tree::Object(e) && e.contains(("status"@, Tree::Text(m.status@))) && e.contains(
            ("created_at"@, tree::real_tree(m.created_at)),
        ) && e.contains(("finished_at"@, tree::opt_real_tree(m.finished_at))) && e.contains(
            ("error"@, tree::opt_text_tree(m.error)),
        ),
        demo_job_tree(m) matches Tree::Object(e) && e.len() == 3 && e.contains(("status"@, Tree::Text(m.status@)))
            && e.contains(("error"@, tree::opt_text_tree(m.error))),
{
    let e = job_tree(m)->Object_0;
    assert(e[1] == ("status"@, Tree::<S>::Text(m.status@)));
    assert(e[2] == ("created_at"@, tree::real_tree(m.created_at)));
    assert(e[5] == ("finished_at"@, tree::opt_real_tree(m.finished_at)));
    assert(e[9] == ("error"@, tree::opt_text_tree::<S>(m.error)));
    let d = demo_job_tree(m)->Object_0;
    assert(d[1] == ("status"@, Tree::<S>::Text(m.status@)));
    assert(d[2] == ("error"@, tree::opt_text_tree::<S>(m.error)));
}

} // verus!
