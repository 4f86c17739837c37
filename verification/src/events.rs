//! What a live session tells its listeners.

use vstd::prelude::*;

use crate::json::Json;
use crate::multispan::MultiSpanOutput;
use crate::reports;
use crate::scalar::Scalar;
use crate::session;
use crate::session::{HearStep, SilentStep, Update};
use crate::spans::AyahRef;
use crate::stability::{Action, Hypothesis, Progress, StabilityState};
use crate::streaming;
use crate::streaming::{Alert, EndReason, StreamConfig, TranscribeMode, UxState};
use crate::tree;
use crate::tree::Tree;

verus! {

// ---------------------------------------------------------------------------
// Words

/// The word for what a guess led to.
pub open spec fn action_word(x: Action) -> Seq<char> {
    match x {
        Action::Hold => "hold"@,
        Action::IgnoreBackward => "ignore_backward"@,
        Action::Commit => "commit"@,
        Action::CommitSkip => "commit_skip"@,
        Action::ResetCommitted => "reset_committed"@,
    }
}

pub fn name_action(x: Action) -> (r: &'static str)
    ensures
        r@ == action_word(x),
{
    match x {
        Action::Hold => "hold",
        Action::IgnoreBackward => "ignore_backward",
        Action::Commit => "commit",
        Action::CommitSkip => "commit_skip",
        Action::ResetCommitted => "reset_committed",
    }
}

/// The word for how much was heard.
pub open spec fn mode_word(x: TranscribeMode) -> Seq<char> {
    match x {
        TranscribeMode::Refresh => "refresh"@,
        TranscribeMode::Tail => "tail"@,
    }
}

pub fn name_mode(x: TranscribeMode) -> (r: &'static str)
    ensures
        r@ == mode_word(x),
{
    match x {
        TranscribeMode::Refresh => "refresh",
        TranscribeMode::Tail => "tail",
    }
}

/// The word for how sure the display may be.
pub open spec fn ux_word(x: UxState) -> Seq<char> {
    match x {
        UxState::Tracking => "tracking"@,
        UxState::Uncertain => "uncertain"@,
        UxState::Seeking => "seeking"@,
    }
}

pub fn name_ux(x: UxState) -> (r: &'static str)
    ensures
        r@ == ux_word(x),
{
    match x {
        UxState::Tracking => "tracking",
        UxState::Uncertain => "uncertain",
        UxState::Seeking => "seeking",
    }
}

/// The word for why a session ends.
pub open spec fn end_word(x: EndReason) -> Seq<char> {
    match x {
        EndReason::AudioLimit => "audio_limit"@,
        EndReason::AuthExpired => "auth_expired"@,
        EndReason::NoAudio => "no_audio_timeout"@,
        EndReason::Silence => "silence_timeout"@,
    }
}

pub fn name_end(x: EndReason) -> (r: &'static str)
    ensures
        r@ == end_word(x),
{
    match x {
        EndReason::AudioLimit => "audio_limit",
        EndReason::AuthExpired => "auth_expired",
        EndReason::NoAudio => "no_audio_timeout",
        EndReason::Silence => "silence_timeout",
    }
}

// ---------------------------------------------------------------------------
// Silence, errors and ends

/// A step is passed over in silence.
pub open spec fn silence_tree<S: Scalar>(session_id: Seq<char>, x: SilentStep<S>, threshold_dbfs: S) -> Tree<S> {
    Tree::Object(
        seq![
            ("type"@, Tree::Text("silence"@)),
            ("session_id"@, Tree::Text(session_id)),
            ("seq"@, tree::count_tree(x.seq)),
            ("at_s"@, tree::real_tree(x.at_s)),
            ("silent_s"@, tree::real_tree(x.silent_s)),
            ("threshold_dbfs"@, tree::real_tree(threshold_dbfs)),
        ],
    )
}

pub fn silence_value<S: Scalar>(session_id: &str, x: &SilentStep<S>, threshold_dbfs: S) -> (r: Json<S>)
    ensures
        tree::tree_of(r) == silence_tree::<S>(session_id@, *x, threshold_dbfs),
{
    let mut e: Vec<(String, Json<S>)> = Vec::new();
    tree::put(&mut e, "type", tree::text("silence"));
    tree::put(&mut e, "session_id", tree::text(session_id));
    tree::put(&mut e, "seq", tree::count(x.seq));
    tree::put(&mut e, "at_s", tree::number(x.at_s));
    tree::put(&mut e, "silent_s", tree::number(x.silent_s));
    tree::put(&mut e, "threshold_dbfs", tree::number(threshold_dbfs));
    assert(tree::entries_of(e@) =~= silence_tree::<S>(session_id@, *x, threshold_dbfs)->Object_0);
    Json::Object(e)
}

/// A step could not be transcribed.
pub open spec fn failure_tree<S: Scalar>(seq: u64, error: Seq<char>) -> Tree<S> {
    Tree::Object(
        seq![
            ("type"@, Tree::Text("error"@)),
            ("stage"@, Tree::Text("transcribe"@)),
            ("seq"@, tree::count_tree(seq)),
            ("error"@, Tree::Text(error)),
        ],
    )
}

pub fn failure_value<S: Scalar>(seq: u64, error: &str) -> (r: Json<S>)
    ensures
        tree::tree_of(r) == failure_tree::<S>(seq, error@),
{
    let mut e: Vec<(String, Json<S>)> = Vec::new();
    tree::put(&mut e, "type", tree::text("error"));
    tree::put(&mut e, "stage", tree::text("transcribe"));
    tree::put(&mut e, "seq", tree::count(seq));
    tree::put(&mut e, "error", tree::text(error));
    assert(tree::entries_of(e@) =~= failure_tree::<S>(seq, error@)->Object_0);
    Json::Object(e)
}

/// What is told of the time: how long no audio came, or how long it was silent.
pub open spec fn end_details<S: Scalar>(reason: EndReason, after_s: Option<S>, threshold_dbfs: S) -> Seq<
    (Seq<char>, Tree<S>),
> {
    match (reason, after_s) {
        (EndReason::NoAudio, Some(s)) => seq![("since_s"@, tree::real_tree(s))],
        (EndReason::Silence, Some(s)) => seq![
            ("silent_s"@, tree::real_tree(s)),
            ("threshold_dbfs"@, tree::real_tree(threshold_dbfs)),
        ],
        _ => Seq::empty(),
    }
}

/// A session ends.
pub open spec fn end_tree<S: Scalar>(
    session_id: Seq<char>,
    reason: EndReason,
    after_s: Option<S>,
    threshold_dbfs: S,
) -> Tree<S> {
    Tree::Object(
        seq![
            ("type"@, Tree::Text("session_end"@)),
            ("reason"@, Tree::Text(end_word(reason))),
            ("session_id"@, Tree::Text(session_id)),
        ] + end_details(reason, after_s, threshold_dbfs),
    )
}

pub fn end_value<S: Scalar>(
    session_id: &str,
    reason: EndReason,
    after_s: Option<S>,
    threshold_dbfs: S,
) -> (r: Json<S>)
    ensures
        tree::tree_of(r) == end_tree::<S>(session_id@, reason, after_s, threshold_dbfs),
{
    let mut e: Vec<(String, Json<S>)> = Vec::new();
    tree::put(&mut e, "type", tree::text("session_end"));
    tree::put(&mut e, "reason", tree::text(name_end(reason)));
    tree::put(&mut e, "session_id", tree::text(session_id));
    match (reason, after_s) {
        (EndReason::NoAudio, Some(s)) => {
            tree::put(&mut e, "since_s", tree::number(s));
        },
        (EndReason::Silence, Some(s)) => {
            tree::put(&mut e, "silent_s", tree::number(s));
            tree::put(&mut e, "threshold_dbfs", tree::number(threshold_dbfs));
        },
        _ => {},
    }
    assert(tree::entries_of(e@) =~= end_tree::<S>(session_id@, reason, after_s, threshold_dbfs)->Object_0);
    Json::Object(e)
}

/// A new token was accepted.
pub open spec fn auth_ok_tree<S: Scalar>(session_id: Seq<char>, exp: u64) -> Tree<S> {
    Tree::Object(
        seq![
            ("type"@, Tree::Text("auth_ok"@)),
            ("session_id"@, Tree::Text(session_id)),
            ("expires_at_unix_s"@, tree::count_tree(exp)),
        ],
    )
}

pub fn auth_ok_value<S: Scalar>(session_id: &str, exp: u64) -> (r: Json<S>)
    ensures
        tree::tree_of(r) == auth_ok_tree::<S>(session_id@, exp),
{
    let mut e: Vec<(String, Json<S>)> = Vec::new();
    tree::put(&mut e, "type", tree::text("auth_ok"));
    tree::put(&mut e, "session_id", tree::text(session_id));
    tree::put(&mut e, "expires_at_unix_s", tree::count(exp));
    assert(tree::entries_of(e@) =~= auth_ok_tree::<S>(session_id@, exp)->Object_0);
    Json::Object(e)
}

/// A new token was refused.
pub open spec fn auth_error_tree<S: Scalar>(session_id: Seq<char>, error: Seq<char>) -> Tree<S> {
    Tree::Object(
        seq![
            ("type"@, Tree::Text("auth_error"@)),
            ("session_id"@, Tree::Text(session_id)),
            ("error"@, Tree::Text(error)),
        ],
    )
}

pub fn auth_error_value<S: Scalar>(session_id: &str, error: &str) -> (r: Json<S>)
    ensures
        tree::tree_of(r) == auth_error_tree::<S>(session_id@, error@),
{
    let mut e: Vec<(String, Json<S>)> = Vec::new();
    tree::put(&mut e, "type", tree::text("auth_error"));
    tree::put(&mut e, "session_id", tree::text(session_id));
    tree::put(&mut e, "error", tree::text(error));
    assert(tree::entries_of(e@) =~= auth_error_tree::<S>(session_id@, error@)->Object_0);
    Json::Object(e)
}

// ---------------------------------------------------------------------------
// Alerts

pub open spec fn alert_tree<S: Scalar>(a: Alert) -> Tree<S> {
    match a {
        Alert::SurahJump(n) => Tree::Object(
            seq![("code"@, Tree::Text("surah_jump"@)), ("skipped_ayahs"@, tree::count_tree(n as u64))],
        ),
        Alert::AyahSkip(n) => Tree::Object(
            seq![("code"@, Tree::Text("ayah_skip"@)), ("skipped_ayahs"@, tree::count_tree(n as u64))],
        ),
        Alert::ResetDetected => reports::single("code"@, Tree::Text("reset_detected"@)),
        Alert::IgnoredBackwardGuess => reports::single("code"@, Tree::Text("ignored_backward_guess"@)),
        Alert::JumpPruned(n) => Tree::Object(
            seq![("code"@, Tree::Text("jump_pruned"@)), ("skipped_ayahs"@, tree::count_tree(n as u64))],
        ),
        Alert::RefreshScheduled => Tree::Object(
            seq![("code"@, Tree::Text("refresh_scheduled"@)), ("reason"@, Tree::Text("low_confidence"@))],
        ),
        Alert::FullRefresh => reports::single("code"@, Tree::Text("full_refresh"@)),
        Alert::NeedMoreAudio => reports::single("code"@, Tree::Text("need_more_audio"@)),
    }
}

fn counted_alert<S: Scalar>(code: &str, n: u16) -> (r: Json<S>)
    ensures
        tree::tree_of(r) == Tree::<S>::Object(
            seq![("code"@, Tree::Text(code@)), ("skipped_ayahs"@, tree::count_tree(n as u64))],
        ),
{
    let mut e: Vec<(String, Json<S>)> = Vec::new();
    tree::put(&mut e, "code", tree::text(code));
    tree::put(&mut e, "skipped_ayahs", tree::count(n as u64));
    assert(tree::entries_of(e@) =~= seq![
        ("code"@, Tree::<S>::Text(code@)),
        ("skipped_ayahs"@, tree::count_tree(n as u64)),
    ]);
    Json::Object(e)
}

pub fn alert_value<S: Scalar>(a: Alert) -> (r: Json<S>)
    ensures
        tree::tree_of(r) == alert_tree::<S>(a),
{
    match a {
        Alert::SurahJump(n) => counted_alert("surah_jump", n),
        Alert::AyahSkip(n) => counted_alert("ayah_skip", n),
        Alert::ResetDetected => reports::single_value("code", tree::text("reset_detected")),
        Alert::IgnoredBackwardGuess => reports::single_value("code", tree::text("ignored_backward_guess")),
        Alert::JumpPruned(n) => counted_alert("jump_pruned", n),
        Alert::RefreshScheduled => {
            let mut e: Vec<(String, Json<S>)> = Vec::new();
            tree::put(&mut e, "code", tree::text("refresh_scheduled"));
            tree::put(&mut e, "reason", tree::text("low_confidence"));
            assert(tree::entries_of(e@) =~= alert_tree::<S>(a)->Object_0);
            Json::Object(e)
        },
        Alert::FullRefresh => reports::single_value("code", tree::text("full_refresh")),
        Alert::NeedMoreAudio => reports::single_value("code", tree::text("need_more_audio")),
    }
}

pub open spec fn alert_trees<S: Scalar>(list: Seq<Alert>) -> Seq<Tree<S>> {
    list.map_values(|a: Alert| alert_tree::<S>(a))
}

fn alert_values<S: Scalar>(list: &[Alert]) -> (r: Vec<Json<S>>)
    ensures
        tree::trees_of(r@) == alert_trees::<S>(list@),
{
    let ghost all = alert_trees::<S>(list@);
    let mut out: Vec<Json<S>> = Vec::new();
    let mut i: usize = 0;
    assert(all.take(0) =~= Seq::<Tree<S>>::empty());
    while i < list.len()
        invariant
            i <= list@.len(),
            all == alert_trees::<S>(list@),
            tree::trees_of(out@) == all.take(i as int),
        decreases list@.len() - i,
    {
        tree::add_item(&mut out, alert_value(list[i]));
        assert(all.take(i as int + 1) =~= all.take(i as int).push(all[i as int]));
        i = i + 1;
    }
    assert(all.take(i as int) =~= all);
    out
}

// ---------------------------------------------------------------------------
// Progress

/// A small number that may be missing.
pub open spec fn small_tree<S: Scalar>(n: Option<u16>) -> Tree<S> {
    match n {
        Some(v) => tree::count_tree(v as u64),
        None => Tree::Null,
    }
}

fn small_value<S: Scalar>(n: Option<u16>) -> (r: Json<S>)
    ensures
        tree::tree_of(r) == small_tree::<S>(n),
{
    match n {
        Some(v) => tree::count(v as u64),
        None => Json::Null,
    }
}

/// The verse that is told.
pub open spec fn committed_tree<S: Scalar>(v: AyahRef, global: Option<u16>, at_s: S) -> Tree<S> {
    Tree::Object(
        seq![
            ("surah_id"@, tree::count_tree(v.surah as u64)),
            ("ayah_num"@, tree::count_tree(v.ayah as u64)),
            ("global"@, small_tree(global)),
            ("at_s"@, tree::real_tree(at_s)),
        ],
    )
}

fn committed_value<S: Scalar>(v: AyahRef, global: Option<u16>, at_s: S) -> (r: Json<S>)
    ensures
        tree::tree_of(r) == committed_tree::<S>(v, global, at_s),
{
    let mut e: Vec<(String, Json<S>)> = Vec::new();
    tree::put(&mut e, "surah_id", tree::count(v.surah as u64));
    tree::put(&mut e, "ayah_num", tree::count(v.ayah as u64));
    tree::put(&mut e, "global", small_value(global));
    tree::put(&mut e, "at_s", tree::number(at_s));
    assert(tree::entries_of(e@) =~= committed_tree::<S>(v, global, at_s)->Object_0);
    Json::Object(e)
}

/// The verse that may be told next.
pub open spec fn pending_tree<S: Scalar>(v: AyahRef, global: Option<u16>, streak_len: usize) -> Tree<S> {
    Tree::Object(
        seq![
            ("surah_id"@, tree::count_tree(v.surah as u64)),
            ("ayah_num"@, tree::count_tree(v.ayah as u64)),
            ("global"@, small_tree(global)),
            ("streak_len"@, tree::count_tree(streak_len as u64)),
        ],
    )
}

fn pending_value<S: Scalar>(v: AyahRef, global: Option<u16>, streak_len: usize) -> (r: Json<S>)
    ensures
        tree::tree_of(r) == pending_tree::<S>(v, global, streak_len),
{
    let mut e: Vec<(String, Json<S>)> = Vec::new();
    tree::put(&mut e, "surah_id", tree::count(v.surah as u64));
    tree::put(&mut e, "ayah_num", tree::count(v.ayah as u64));
    tree::put(&mut e, "global", small_value(global));
    tree::put(&mut e, "streak_len", tree::count(streak_len as u64));
    assert(tree::entries_of(e@) =~= pending_tree::<S>(v, global, streak_len)->Object_0);
    Json::Object(e)
}

/// A verse without its name.
pub open spec fn place_tree<S: Scalar>(v: AyahRef) -> Tree<S> {
    Tree::Object(
        seq![
            ("surah_id"@, tree::count_tree(v.surah as u64)),
            ("ayah_num"@, tree::count_tree(v.ayah as u64)),
        ],
    )
}

fn place_value<S: Scalar>(v: AyahRef) -> (r: Json<S>)
    ensures
        tree::tree_of(r) == place_tree::<S>(v),
{
    let mut e: Vec<(String, Json<S>)> = Vec::new();
    tree::put(&mut e, "surah_id", tree::count(v.surah as u64));
    tree::put(&mut e, "ayah_num", tree::count(v.ayah as u64));
    assert(tree::entries_of(e@) =~= place_tree::<S>(v)->Object_0);
    Json::Object(e)
}

/// How far the recitation has come.
pub open spec fn progress_tree<S: Scalar>(h: Hypothesis<S>, st: StabilityState<S>, p: Progress) -> Tree<S> {
    Tree::Object(
        seq![
            ("action"@, Tree::Text(action_word(p.action))),
            ("committed_end"@, match st.committed_end {
                Some(v) => committed_tree(v, st.committed_end_global, st.committed_at_s),
                None => Tree::Null,
            }),
            ("pending_end"@, match st.pending_end {
                Some(v) => pending_tree(v, st.pending_end_global, st.pending_streak_len),
                None => Tree::Null,
            }),
            ("hypothesis_end"@, match h.end {
                Some(v) => place_tree(v),
                None => Tree::Null,
            }),
            ("hypothesis_end_global"@, small_tree(h.end_global)),
            ("confidence"@, tree::real_tree(h.conf)),
            ("matches"@, tree::count_tree(h.matches as u64)),
            ("match_ratio"@, tree::real_tree(h.match_ratio)),
            ("skipped_ayahs"@, small_tree(p.skipped)),
        ],
    )
}

fn progress_value<S: Scalar>(h: &Hypothesis<S>, st: &StabilityState<S>, p: &Progress) -> (r: Json<S>)
    ensures
        tree::tree_of(r) == progress_tree::<S>(*h, *st, *p),
{
    let committed: Json<S> = match st.committed_end {
        Some(v) => committed_value(v, st.committed_end_global, st.committed_at_s),
        None => Json::Null,
    };
    let pending: Json<S> = match st.pending_end {
        Some(v) => pending_value(v, st.pending_end_global, st.pending_streak_len),
        None => Json::Null,
    };
    let end: Json<S> = match h.end {
        Some(v) => place_value(v),
        None => Json::Null,
    };
    let mut e: Vec<(String, Json<S>)> = Vec::new();
    tree::put(&mut e, "action", tree::text(name_action(p.action)));
    tree::put(&mut e, "committed_end", committed);
    tree::put(&mut e, "pending_end", pending);
    tree::put(&mut e, "hypothesis_end", end);
    tree::put(&mut e, "hypothesis_end_global", small_value(h.end_global));
    tree::put(&mut e, "confidence", tree::number(h.conf));
    tree::put(&mut e, "matches", tree::count(h.matches as u64));
    tree::put(&mut e, "match_ratio", tree::number(h.match_ratio));
    tree::put(&mut e, "skipped_ayahs", small_value(p.skipped));
    assert(tree::entries_of(e@) =~= progress_tree::<S>(*h, *st, *p)->Object_0);
    Json::Object(e)
}

/// How steady the guesses are.
pub open spec fn stability_tree<S: Scalar>(h: Hypothesis<S>, st: StabilityState<S>) -> Tree<S> {
    Tree::Object(
        seq![
            ("stable"@, Tree::Bool(st.stable_surah_id is Some)),
            ("stable_surah_id"@, small_tree(st.stable_surah_id)),
            ("predicted_surah_id"@, small_tree(h.surah_id)),
            ("predicted_streak_surah_id"@, small_tree(st.streak_surah_id)),
            ("predicted_streak_len"@, tree::count_tree(st.streak_len as u64)),
            ("confidence"@, tree::real_tree(h.conf)),
            ("min_conf"@, tree::real_tree(S::milli_spec(100))),
            ("switch_conf"@, tree::real_tree(S::milli_spec(250))),
        ],
    )
}

fn stability_value<S: Scalar>(h: &Hypothesis<S>, st: &StabilityState<S>) -> (r: Json<S>)
    ensures
        tree::tree_of(r) == stability_tree::<S>(*h, *st),
{
    let mut e: Vec<(String, Json<S>)> = Vec::new();
    tree::put(&mut e, "stable", Json::Bool(st.stable_surah_id.is_some()));
    tree::put(&mut e, "stable_surah_id", small_value(st.stable_surah_id));
    tree::put(&mut e, "predicted_surah_id", small_value(h.surah_id));
    tree::put(&mut e, "predicted_streak_surah_id", small_value(st.streak_surah_id));
    tree::put(&mut e, "predicted_streak_len", tree::count(st.streak_len as u64));
    tree::put(&mut e, "confidence", tree::number(h.conf));
    tree::put(&mut e, "min_conf", tree::number(S::milli(100)));
    tree::put(&mut e, "switch_conf", tree::number(S::milli(250)));
    assert(tree::entries_of(e@) =~= stability_tree::<S>(*h, *st)->Object_0);
    Json::Object(e)
}

// ---------------------------------------------------------------------------
// The update after a step

/// The text of a step, what the transcriber says of it, and how many words the
/// window holds.
pub struct HeardText<S> {
    pub text: String,
    pub dedupe: Json<S>,
    pub repair: Json<S>,
    pub rolling_words: usize,
}

/// How long the parts of a step took.
pub struct StepTiming<S> {
    pub transcribe_s: S,
    pub align_s: S,
    pub loop_s: S,
}

/// A stretch of time.
pub open spec fn stretch_tree<S: Scalar>(start_s: S, end_s: S) -> Tree<S> {
    Tree::Object(
        seq![
            ("start_s"@, tree::real_tree(start_s)),
            ("end_s"@, tree::real_tree(end_s)),
        ],
    )
}

fn stretch_value<S: Scalar>(start_s: S, end_s: S) -> (r: Json<S>)
    ensures
        tree::tree_of(r) == stretch_tree::<S>(start_s, end_s),
{
    let mut e: Vec<(String, Json<S>)> = Vec::new();
    tree::put(&mut e, "start_s", tree::number(start_s));
    tree::put(&mut e, "end_s", tree::number(end_s));
    assert(tree::entries_of(e@) =~= stretch_tree::<S>(start_s, end_s)->Object_0);
    Json::Object(e)
}

/// What was transcribed.
pub open spec fn transcribed_tree<S: Scalar>(x: HearStep<S>) -> Tree<S> {
    Tree::Object(
        seq![
            ("mode"@, Tree::Text(mode_word(x.mode))),
            ("start_s"@, tree::real_tree(x.transcribe_start_s)),
            ("end_s"@, tree::real_tree(x.transcribe_end_s)),
        ],
    )
}

fn transcribed_value<S: Scalar>(x: &HearStep<S>) -> (r: Json<S>)
    ensures
        tree::tree_of(r) == transcribed_tree::<S>(*x),
{
    let mut e: Vec<(String, Json<S>)> = Vec::new();
    tree::put(&mut e, "mode", tree::text(name_mode(x.mode)));
    tree::put(&mut e, "start_s", tree::number(x.transcribe_start_s));
    tree::put(&mut e, "end_s", tree::number(x.transcribe_end_s));
    assert(tree::entries_of(e@) =~= transcribed_tree::<S>(*x)->Object_0);
    Json::Object(e)
}

/// What a display may show.
pub open spec fn ux_tree<S: Scalar>(ux: UxState, alerts: Seq<Alert>) -> Tree<S> {
    Tree::Object(
        seq![
            ("state"@, Tree::Text(ux_word(ux))),
            ("alerts"@, Tree::List(alert_trees(alerts))),
        ],
    )
}

fn ux_value<S: Scalar>(ux: UxState, alerts: &[Alert]) -> (r: Json<S>)
    ensures
        tree::tree_of(r) == ux_tree::<S>(ux, alerts@),
{
    let mut e: Vec<(String, Json<S>)> = Vec::new();
    tree::put(&mut e, "state", tree::text(name_ux(ux)));
    tree::put(&mut e, "alerts", Json::List(alert_values(alerts)));
    assert(tree::entries_of(e@) =~= ux_tree::<S>(ux, alerts@)->Object_0);
    Json::Object(e)
}

/// What was heard.
pub open spec fn heard_tree<S: Scalar>(t: HeardText<S>) -> Tree<S> {
    Tree::Object(
        seq![
            ("text_tail"@, Tree::Text(streaming::text_tail_of(t.text@))),
            ("rolling_words"@, tree::count_tree(t.rolling_words as u64)),
            ("dedupe"@, tree::tree_of(t.dedupe)),
            ("repair"@, tree::tree_of(t.repair)),
        ],
    )
}

fn heard_value<S: Scalar>(t: &HeardText<S>) -> (r: Json<S>)
    ensures
        tree::tree_of(r) == heard_tree::<S>(*t),
{
    let mut e: Vec<(String, Json<S>)> = Vec::new();
    tree::put(&mut e, "text_tail", tree::text(streaming::text_tail(t.text.as_str()).as_str()));
    tree::put(&mut e, "rolling_words", tree::count(t.rolling_words as u64));
    tree::put(&mut e, "dedupe", tree::copy_of(&t.dedupe));
    tree::put(&mut e, "repair", tree::copy_of(&t.repair));
    assert(tree::entries_of(e@) =~= heard_tree::<S>(*t)->Object_0);
    Json::Object(e)
}

pub open spec fn timing_tree<S: Scalar>(t: StepTiming<S>) -> Tree<S> {
    Tree::Object(
        seq![
            ("transcribe_s"@, tree::real_tree(t.transcribe_s)),
            ("align_s"@, tree::real_tree(t.align_s)),
            ("loop_s"@, tree::real_tree(t.loop_s)),
        ],
    )
}

fn timing_value<S: Scalar>(t: &StepTiming<S>) -> (r: Json<S>)
    ensures
        tree::tree_of(r) == timing_tree::<S>(*t),
{
    let mut e: Vec<(String, Json<S>)> = Vec::new();
    tree::put(&mut e, "transcribe_s", tree::number(t.transcribe_s));
    tree::put(&mut e, "align_s", tree::number(t.align_s));
    tree::put(&mut e, "loop_s", tree::number(t.loop_s));
    assert(tree::entries_of(e@) =~= timing_tree::<S>(*t)->Object_0);
    Json::Object(e)
}

/// A step was heard and aligned.
pub open spec fn update_tree<S: Scalar>(
    session_id: Seq<char>,
    cfg: StreamConfig<S>,
    step: HearStep<S>,
    u: Update<S>,
    heard: HeardText<S>,
    out: MultiSpanOutput<S>,
    time_mode: Seq<char>,
    debug: bool,
    timing: StepTiming<S>,
) -> Tree<S> {
    Tree::Object(
        seq![
            ("type"@, Tree::Text("ayah_update"@)),
            ("session_id"@, Tree::Text(session_id)),
            ("seq"@, tree::count_tree(step.seq)),
            ("at_s"@, tree::real_tree(step.process_end_s)),
            ("window"@, stretch_tree(session::window_start(cfg, step.process_end_s), step.process_end_s)),
            ("transcribe_window"@, transcribed_tree(step)),
            ("stability"@, stability_tree(u.hypothesis, u.stability)),
            ("progress"@, progress_tree(u.hypothesis, u.stability, u.progress)),
            ("ux"@, ux_tree(u.ux, u.alerts@)),
            ("transcription"@, heard_tree(heard)),
            ("ayah_alignment"@, reports::outcome_tree(out.active(), time_mode, debug)),
            ("ayah_alignment_spans"@, reports::span_trees(out.spans)),
            ("ayah_alignment_jumps"@, reports::jump_trees(out.jumps)),
            ("ayah_alignment_active_span_index"@, reports::index_tree(out.active_span_index)),
            ("timing"@, timing_tree(timing)),
        ],
    )
}

pub fn update_value<S: Scalar>(
    session_id: &str,
    cfg: &StreamConfig<S>,
    step: &HearStep<S>,
    u: &Update<S>,
    heard: &HeardText<S>,
    out: &MultiSpanOutput<S>,
    time_mode: &str,
    debug: bool,
    timing: &StepTiming<S>,
) -> (r: Json<S>)
    requires
        out.wf(),
    ensures
        tree::tree_of(r) == update_tree::<S>(session_id@, *cfg, *step, *u, *heard, *out, time_mode@, debug, *timing),
{
    let mut e: Vec<(String, Json<S>)> = Vec::new();
    tree::put(&mut e, "type", tree::text("ayah_update"));
    tree::put(&mut e, "session_id", tree::text(session_id));
    tree::put(&mut e, "seq", tree::count(step.seq));
    tree::put(&mut e, "at_s", tree::number(step.process_end_s));
    tree::put(
        &mut e,
        "window",
        stretch_value(session::find_window_start(cfg, step.process_end_s), step.process_end_s),
    );
    tree::put(&mut e, "transcribe_window", transcribed_value(step));
    tree::put(&mut e, "stability", stability_value(&u.hypothesis, &u.stability));
    tree::put(&mut e, "progress", progress_value(&u.hypothesis, &u.stability, &u.progress));
    tree::put(&mut e, "ux", ux_value(u.ux, &u.alerts));
    tree::put(&mut e, "transcription", heard_value(heard));
    tree::put(
        &mut e,
        "ayah_alignment",
        reports::outcome_value(out.active_alignment(), time_mode, debug),
    );
    tree::put(&mut e, "ayah_alignment_spans", reports::spans_value(&out.spans));
    tree::put(&mut e, "ayah_alignment_jumps", reports::jumps_value(&out.jumps));
    tree::put(&mut e, "ayah_alignment_active_span_index", reports::index_value(out.active_span_index));
    tree::put(&mut e, "timing", timing_value(timing));
    assert(tree::entries_of(e@) =~= update_tree::<S>(session_id@, *cfg, *step, *u, *heard, *out, time_mode@, debug, *timing)->Object_0);
    Json::Object(e)
}

/// An update tells the verse that is committed, the one that waits and the one that was
/// heard, and what was done.
pub proof fn law_updates_tell_the_progress<S: Scalar>(h: Hypothesis<S>, st: StabilityState<S>, p: Progress)
    ensures
        ({
            let r = progress_tree(h, st, p);
            &&& r matches Tree::Object(e)
            &&& e.contains(("action"@, Tree::Text(action_word(p.action))))
            &&& st.committed_end is None ==> e.contains(("committed_end"@, Tree::Null))
            &&& st.committed_end matches Some(v) ==> e.contains(
                ("committed_end"@, committed_tree(v, st.committed_end_global, st.committed_at_s)),
            )
            &&& st.pending_end matches Some(v) ==> e.contains(
                ("pending_end"@, pending_tree(v, st.pending_end_global, st.pending_streak_len)),
            )
            &&& h.end matches Some(v) ==> e.contains(("hypothesis_end"@, place_tree(v)))
            &&& e.contains(("confidence"@, tree::real_tree(h.conf)))
        }),
{
    let e = progress_tree(h, st, p)->Object_0;
    assert(e[0] == ("action"@, Tree::<S>::Text(action_word(p.action))));
    assert(e[1].0 == "committed_end"@);
    assert(e[2].0 == "pending_end"@);
    assert(e[3].0 == "hypothesis_end"@);
    assert(e[5] == ("confidence"@, tree::real_tree(h.conf)));
}

/// A verse is told by its chapter and its number in it.
pub proof fn law_places_are_told_by_number<S: Scalar>(v: AyahRef, global: Option<u16>, at_s: S, streak_len: usize)
    ensures
        place_tree::<S>(v) matches Tree::Object(e) && e.contains(("surah_id"@, tree::count_tree(v.surah as u64)))
            && e.contains(("ayah_num"@, tree::count_tree(v.ayah as u64))),
        committed_tree(v, global, at_s) matches Tree::Object(e) && e.contains(
            ("surah_id"@, tree::count_tree(v.surah as u64)),
        ) && e.contains(("ayah_num"@, tree::count_tree(v.ayah as u64))) && e.contains(("at_s"@, tree::real_tree(at_s))),
        pending_tree::<S>(v, global, streak_len) matches Tree::Object(e) && e.contains(
            ("surah_id"@, tree::count_tree(v.surah as u64)),
        ) && e.contains(("ayah_num"@, tree::count_tree(v.ayah as u64))) && e.contains(
            ("streak_len"@, tree::count_tree(streak_len as u64)),
        ),
{
    let a = place_tree::<S>(v)->Object_0;
    assert(a[0] == ("surah_id"@, tree::count_tree::<S>(v.surah as u64)));
    assert(a[1] == ("ayah_num"@, tree::count_tree::<S>(v.ayah as u64)));
    let b = committed_tree(v, global, at_s)->Object_0;
    assert(b[0] == a[0] && b[1] == a[1]);
    assert(b[3] == ("at_s"@, tree::real_tree(at_s)));
    let c = pending_tree::<S>(v, global, streak_len)->Object_0;
    assert(c[0] == a[0] && c[1] == a[1]);
    assert(c[3] == ("streak_len"@, tree::count_tree::<S>(streak_len as u64)));
}

/// Listeners are told each alert, in their order, and the state.
pub proof fn law_alerts_are_told<S: Scalar>(ux: UxState, alerts: Seq<Alert>)
    ensures
        ux_tree::<S>(ux, alerts) matches Tree::Object(e) && e.contains(("state"@, Tree::Text(ux_word(ux))))
            && e.contains(("alerts"@, Tree::List(alerts.map_values(|a: Alert| alert_tree::<S>(a))))),
        ux_word(ux) == "tracking"@ <==> ux == UxState::Tracking,
        ux_word(ux) == "seeking"@ <==> ux == UxState::Seeking,
{
    reveal_strlit("tracking");
    reveal_strlit("uncertain");
    reveal_strlit("seeking");
    assert("tracking"@.len() == 8 && "uncertain"@.len() == 9 && "seeking"@.len() == 7);
    let e = ux_tree::<S>(ux, alerts)->Object_0;
    assert(e[0] == ("state"@, Tree::<S>::Text(ux_word(ux))));
    assert(e[1] == ("alerts"@, Tree::List(alerts.map_values(|a: Alert| alert_tree::<S>(a)))));
}

/// What was skipped is told by how many verses it was.
pub proof fn law_skipped_verses_are_counted<S: Scalar>(n: u16)
    ensures
        alert_tree::<S>(Alert::SurahJump(n)) matches Tree::Object(e) && e.contains(
            ("skipped_ayahs"@, tree::count_tree(n as u64)),
        ),
        alert_tree::<S>(Alert::AyahSkip(n)) matches Tree::Object(e) && e.contains(
            ("skipped_ayahs"@, tree::count_tree(n as u64)),
        ),
        alert_tree::<S>(Alert::JumpPruned(n)) matches Tree::Object(e) && e.contains(
            ("skipped_ayahs"@, tree::count_tree(n as u64)),
        ),
{
    let x = ("skipped_ayahs"@, tree::count_tree::<S>(n as u64));
    assert(alert_tree::<S>(Alert::SurahJump(n))->Object_0[1] == x);
    assert(alert_tree::<S>(Alert::AyahSkip(n))->Object_0[1] == x);
    assert(alert_tree::<S>(Alert::JumpPruned(n))->Object_0[1] == x);
}

} // verus!
